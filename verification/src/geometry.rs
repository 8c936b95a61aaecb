//! Primitive rectangle predicates: overlap, edge-adjacency, boundary
//! containment and exterior-wall contact.
//!
//! All predicates compare exact grid coordinates, so shared edges can be
//! told apart from overlapping interiors without any tolerance.

use vstd::prelude::*;
use crate::types::{Room, RoomV};

verus! {

/// A rectangle with a position and size, in half-metre grid units.
#[derive(Debug, Clone, Copy, PartialEq, Eq, Structural)]
pub struct Rectangle {
    pub x: u32,
    pub y: u32,
    pub width: u32,
    pub height: u32,
}

/// The rectangle a room occupies.
pub open spec fn rect_of(room: RoomV) -> Rectangle {
    Rectangle { x: room.x, y: room.y, width: room.width, height: room.height }
}

/// The open interiors of `a` and `b` intersect. Two rectangles that only
/// touch along an edge or at a corner do not overlap.
pub open spec fn rects_overlap(a: Rectangle, b: Rectangle) -> bool {
    !(a.x + a.width <= b.x || b.x + b.width <= a.x || a.y + a.height <= b.y || b.y + b.height
        <= a.y)
}

/// `a` and `b` share an edge segment of positive length: their outlines
/// coincide along a vertical or horizontal line, and the facing sides
/// overlap over a non-zero range. Corner-only contact is not adjacency.
pub open spec fn rects_adjacent(a: Rectangle, b: Rectangle) -> bool {
    let vertical_edge_touching = a.x == b.x + b.width || a.x + a.width == b.x;
    let vertical_range_overlap = a.y < b.y + b.height && a.y + a.height > b.y;
    let horizontal_edge_touching = a.y == b.y + b.height || a.y + a.height == b.y;
    let horizontal_range_overlap = a.x < b.x + b.width && a.x + a.width > b.x;
    (vertical_edge_touching && vertical_range_overlap) || (horizontal_edge_touching
        && horizontal_range_overlap)
}

/// `r` lies entirely inside the boundary `[0, boundary_width] x [0, boundary_height]`.
pub open spec fn rect_within_boundary(r: Rectangle, boundary_width: u32, boundary_height: u32) -> bool {
    r.x + r.width <= boundary_width && r.y + r.height <= boundary_height
}

/// At least one face of `r` lies on an edge of the boundary.
pub open spec fn rect_touches_exterior_wall(
    r: Rectangle,
    boundary_width: u32,
    boundary_height: u32,
) -> bool {
    r.x == 0 || r.x + r.width == boundary_width || r.y == 0 || r.y + r.height == boundary_height
}

impl Rectangle {
    /// Create a rectangle from a room.
    pub fn from_room(room: &Room) -> (r: Rectangle)
        ensures
            r == rect_of(room@),
    {
        Rectangle { x: room.x, y: room.y, width: room.width, height: room.height }
    }

    /// Check whether two rectangles share interior area, not just an edge.
    pub fn overlaps_with(&self, other: &Rectangle) -> (r: bool)
        ensures
            r == rects_overlap(*self, *other),
    {
        let x_separated = self.x as u64 + self.width as u64 <= other.x as u64 || other.x as u64
            + other.width as u64 <= self.x as u64;
        let y_separated = self.y as u64 + self.height as u64 <= other.y as u64 || other.y as u64
            + other.height as u64 <= self.y as u64;
        !(x_separated || y_separated)
    }

    /// Check whether two rectangles share an edge segment of positive
    /// length, not just a corner.
    pub fn is_adjacent_to(&self, other: &Rectangle) -> (r: bool)
        ensures
            r == rects_adjacent(*self, *other),
    {
        let vertical_edge_touching = self.x as u64 == other.x as u64 + other.width as u64
            || self.x as u64 + self.width as u64 == other.x as u64;
        let vertical_range_overlap = (self.y as u64) < other.y as u64 + other.height as u64
            && self.y as u64 + self.height as u64 > other.y as u64;
        let horizontal_edge_touching = self.y as u64 == other.y as u64 + other.height as u64
            || self.y as u64 + self.height as u64 == other.y as u64;
        let horizontal_range_overlap = (self.x as u64) < other.x as u64 + other.width as u64
            && self.x as u64 + self.width as u64 > other.x as u64;
        (vertical_edge_touching && vertical_range_overlap) || (horizontal_edge_touching
            && horizontal_range_overlap)
    }

    /// Check whether the rectangle lies fully inside the boundary.
    pub fn is_within_boundary(&self, boundary_width: u32, boundary_height: u32) -> (r: bool)
        ensures
            r == rect_within_boundary(*self, boundary_width, boundary_height),
    {
        self.x as u64 + self.width as u64 <= boundary_width as u64 && self.y as u64
            + self.height as u64 <= boundary_height as u64
    }

    /// Check whether the rectangle touches an edge of the boundary.
    pub fn touches_exterior_wall(&self, boundary_width: u32, boundary_height: u32) -> (r: bool)
        ensures
            r == rect_touches_exterior_wall(*self, boundary_width, boundary_height),
    {
        self.x == 0 || self.x as u64 + self.width as u64 == boundary_width as u64 || self.y == 0
            || self.y as u64 + self.height as u64 == boundary_height as u64
    }
}

/// Overlap does not depend on the order of its arguments.
pub proof fn lemma_overlap_symmetric(a: Rectangle, b: Rectangle)
    ensures
        rects_overlap(a, b) == rects_overlap(b, a),
{
}

} // verus!
