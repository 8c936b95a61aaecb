//! The entities a layout problem is made of.
//!
//! Lengths are in half-metre grid units; areas are in grid cells (quarter
//! square metres).

use vstd::prelude::*;

verus! {

/// A room with a position and size. `(x, y)` is the lower-left corner,
/// `(x + width, y + height)` the opposite one, in half-metre grid units.
#[derive(Debug)]
pub struct Room {
    pub id: String,
    pub x: u32,
    pub y: u32,
    pub width: u32,
    pub height: u32,
}

/// The mathematical value of a [`Room`]: its identifier as a character
/// sequence beside the grid coordinates.
pub struct RoomV {
    pub id: Seq<char>,
    pub x: u32,
    pub y: u32,
    pub width: u32,
    pub height: u32,
}

impl View for Room {
    type V = RoomV;

    open spec fn view(&self) -> RoomV {
        RoomV { id: self.id@, x: self.x, y: self.y, width: self.width, height: self.height }
    }
}

impl DeepView for Room {
    type V = RoomV;

    open spec fn deep_view(&self) -> RoomV {
        self.view()
    }
}

impl Clone for Room {
    fn clone(&self) -> (r: Room)
        ensures
            r@ == self@,
    {
        Room {
            id: self.id.clone(),
            x: self.x,
            y: self.y,
            width: self.width,
            height: self.height,
        }
    }
}

/// A requirement for one room: the minimum floor area it must reach (in
/// grid cells), the rooms it has to share an edge with, the rooms it must
/// not share an edge with, and whether it needs a face on the boundary.
#[derive(Debug)]
pub struct RoomRequirement {
    pub id: String,
    pub min_area: u32,
    pub adjacent_to: Vec<String>,
    pub not_adjacent_to: Vec<String>,
    pub has_exterior_wall: bool,
}

/// The mathematical value of a [`RoomRequirement`].
pub struct RoomRequirementV {
    pub id: Seq<char>,
    pub min_area: u32,
    pub adjacent_to: Seq<Seq<char>>,
    pub not_adjacent_to: Seq<Seq<char>>,
    pub has_exterior_wall: bool,
}

impl View for RoomRequirement {
    type V = RoomRequirementV;

    open spec fn view(&self) -> RoomRequirementV {
        RoomRequirementV {
            id: self.id@,
            min_area: self.min_area,
            adjacent_to: self.adjacent_to.deep_view(),
            not_adjacent_to: self.not_adjacent_to.deep_view(),
            has_exterior_wall: self.has_exterior_wall,
        }
    }
}

impl DeepView for RoomRequirement {
    type V = RoomRequirementV;

    open spec fn deep_view(&self) -> RoomRequirementV {
        self.view()
    }
}

/// Pushing onto a vector appends the element's value to the vector's
/// deep view.
pub proof fn lemma_deep_view_push<T: DeepView>(pre: Vec<T>, post: Vec<T>, x: T)
    requires
        post@ == pre@.push(x),
    ensures
        post.deep_view() == pre.deep_view().push(x.deep_view()),
{
    assert forall|j: int| 0 <= j < post.deep_view().len() implies #[trigger] post.deep_view()[j]
        == pre.deep_view().push(x.deep_view())[j] by {
        if j < pre@.len() {
            assert(post@[j] == pre@[j]);
            assert(pre.deep_view()[j] == pre@[j].deep_view());
        } else {
            assert(post@[j] == x);
        }
    }
    assert(post.deep_view() =~= pre.deep_view().push(x.deep_view()));
}

/// Inserting into a vector inserts the element's value into the
/// vector's deep view at the same position.
pub proof fn lemma_deep_view_insert<T: DeepView>(pre: Vec<T>, post: Vec<T>, x: T, i: int)
    requires
        0 <= i <= pre@.len(),
        post@ == pre@.insert(i, x),
    ensures
        post.deep_view() == pre.deep_view().insert(i, x.deep_view()),
{
    assert forall|j: int| 0 <= j < post.deep_view().len() implies #[trigger] post.deep_view()[j]
        == pre.deep_view().insert(i, x.deep_view())[j] by {
        assert(pre.deep_view().len() == pre@.len());
        if j < i {
            assert(post@[j] == pre@[j]);
            assert(pre.deep_view()[j] == pre@[j].deep_view());
        } else if j == i {
            assert(post@[j] == x);
        } else {
            assert(post@[j] == pre@[j - 1]);
            assert(pre.deep_view()[j - 1] == pre@[j - 1].deep_view());
        }
    }
    assert(post.deep_view() =~= pre.deep_view().insert(i, x.deep_view()));
}

} // verus!
