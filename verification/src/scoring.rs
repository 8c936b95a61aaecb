//! Scoring of candidate placements: hard-rule checking against the
//! incremental placement state, soft preference bonuses, area efficiency,
//! and their composition into one quality score.
//!
//! Scores are exact rationals ([`Frac`]): the only non-integer component
//! is the area-efficiency ratio, which is kept as a fraction whose
//! denominator is the candidate's area.

use vstd::prelude::*;
use crate::geometry::{
    rect_of, rect_touches_exterior_wall, rect_within_boundary, rects_adjacent, rects_overlap,
    Rectangle,
};
use crate::types::{lemma_deep_view_push, Room, RoomRequirement, RoomRequirementV, RoomV};

verus! {

/// Room dimensions accepted by the scorer, in grid units. The cap keeps
/// every score numerator inside a machine word; it allows rooms hundreds
/// of thousands of kilometres across, so it only excludes inputs no
/// machine could lay out anyway.
pub const MAX_DIMENSION: u32 = 0x2000_0000;

/// An exact non-negative rational number `num / den`.
#[derive(Debug, Clone, Copy, PartialEq, Eq, Structural)]
pub struct Frac {
    pub num: u64,
    pub den: u64,
}

/// `a <= b` as rationals (both denominators taken positive).
pub open spec fn spec_frac_le(a: Frac, b: Frac) -> bool {
    a.num * b.den <= b.num * a.den
}

/// `a == b` as rationals.
pub open spec fn spec_frac_eq_int(a: Frac, n: int) -> bool {
    a.num == n * a.den
}

impl Frac {
    /// Compare two scores exactly: `self >= other` as rationals.
    pub fn ge(&self, other: &Frac) -> (r: bool)
        ensures
            r == spec_frac_le(*other, *self),
    {
        let a = self.num as u128;
        let b = other.den as u128;
        let c = other.num as u128;
        let d = self.den as u128;
        proof {
            assert(a * b <= 0xFFFF_FFFF_FFFF_FFFFu128 * 0xFFFF_FFFF_FFFF_FFFFu128 && c * d
                <= 0xFFFF_FFFF_FFFF_FFFFu128 * 0xFFFF_FFFF_FFFF_FFFFu128) by (nonlinear_arith)
                requires
                    a <= 0xFFFF_FFFF_FFFF_FFFFu128,
                    b <= 0xFFFF_FFFF_FFFF_FFFFu128,
                    c <= 0xFFFF_FFFF_FFFF_FFFFu128,
                    d <= 0xFFFF_FFFF_FFFF_FFFFu128;
        }
        a * b >= c * d
    }

    /// Whether the score equals the whole number `n`.
    pub fn value_equals(&self, n: u64) -> (r: bool)
        ensures
            r == spec_frac_eq_int(*self, n as int),
    {
        match n.checked_mul(self.den) {
            Some(p) => p == self.num,
            None => {
                proof {
                    assert(n * self.den > u64::MAX >= self.num);
                }
                false
            },
        }
    }
}

/// The result of scoring one candidate placement.
#[derive(Debug)]
pub struct PositionScore {
    pub total_score: Frac,
    pub hard_constraint_score: u64,
    pub soft_preference_score: u64,
    pub space_efficiency_score: Frac,
    pub has_violations: bool,
    pub violation_reasons: Vec<String>,
}

/// The mathematical value of a [`PositionScore`].
pub struct PositionScoreV {
    pub total_score: Frac,
    pub hard_constraint_score: u64,
    pub soft_preference_score: u64,
    pub space_efficiency_score: Frac,
    pub has_violations: bool,
    pub violation_reasons: Seq<Seq<char>>,
}

impl View for PositionScore {
    type V = PositionScoreV;

    open spec fn view(&self) -> PositionScoreV {
        PositionScoreV {
            total_score: self.total_score,
            hard_constraint_score: self.hard_constraint_score,
            soft_preference_score: self.soft_preference_score,
            space_efficiency_score: self.space_efficiency_score,
            has_violations: self.has_violations,
            violation_reasons: self.violation_reasons.deep_view(),
        }
    }
}

impl DeepView for PositionScore {
    type V = PositionScoreV;

    open spec fn deep_view(&self) -> PositionScoreV {
        self.view()
    }
}

// ---------------------------------------------------------------------
// Violation messages
// ---------------------------------------------------------------------

pub open spec fn msg_outside_boundary() -> Seq<char> {
    "Room is outside the boundary"@
}

pub open spec fn msg_overlaps(other_id: Seq<char>) -> Seq<char> {
    "Room overlaps with already placed room: "@ + other_id
}

pub open spec fn msg_no_exterior_wall() -> Seq<char> {
    "Room does not touch the exterior wall"@
}

pub open spec fn msg_missing_adjacency(required_id: Seq<char>) -> Seq<char> {
    "Room is not adjacent to required room: "@ + required_id
}

pub open spec fn msg_forbidden_adjacency(forbidden_id: Seq<char>) -> Seq<char> {
    "Room is adjacent to forbidden room: "@ + forbidden_id
}

// ---------------------------------------------------------------------
// Hard rules, as predicates and as the list of violation messages
// ---------------------------------------------------------------------

/// The first already-placed room carrying `id`, scanning from index `i`.
pub open spec fn spec_find_from(placed: Seq<RoomV>, id: Seq<char>, i: int) -> Option<RoomV>
    decreases placed.len() - i,
{
    if i < 0 || i >= placed.len() {
        None
    } else if placed[i].id == id {
        Some(placed[i])
    } else {
        spec_find_from(placed, id, i + 1)
    }
}

/// The first already-placed room carrying `id`, if any.
pub open spec fn spec_find_room(placed: Seq<RoomV>, id: Seq<char>) -> Option<RoomV> {
    spec_find_from(placed, id, 0)
}

/// Some room carrying `id` shares an edge with `rect`.
pub open spec fn spec_has_adjacent_with_id(rect: Rectangle, placed: Seq<RoomV>, id: Seq<char>) -> bool {
    exists|k: int|
        0 <= k < placed.len() && (#[trigger] placed[k]).id == id && rects_adjacent(
            rect,
            rect_of(placed[k]),
        )
}

pub open spec fn spec_boundary_violations(c: RoomV, boundary_width: u32, boundary_height: u32) -> Seq<
    Seq<char>,
> {
    if !rect_within_boundary(rect_of(c), boundary_width, boundary_height) {
        seq![msg_outside_boundary()]
    } else {
        Seq::empty()
    }
}

/// Overlap violations against the first `n` already-placed rooms, in
/// placement order.
pub open spec fn spec_overlap_violations_upto(c: RoomV, placed: Seq<RoomV>, n: int) -> Seq<Seq<char>>
    decreases n,
{
    if n <= 0 {
        Seq::empty()
    } else {
        spec_overlap_violations_upto(c, placed, n - 1) + if rects_overlap(
            rect_of(c),
            rect_of(placed[n - 1]),
        ) {
            seq![msg_overlaps(placed[n - 1].id)]
        } else {
            Seq::empty()
        }
    }
}

pub open spec fn spec_exterior_violations(
    c: RoomV,
    req: RoomRequirementV,
    boundary_width: u32,
    boundary_height: u32,
) -> Seq<Seq<char>> {
    if req.has_exterior_wall && !rect_touches_exterior_wall(
        rect_of(c),
        boundary_width,
        boundary_height,
    ) {
        seq![msg_no_exterior_wall()]
    } else {
        Seq::empty()
    }
}

/// Missing-adjacency violations for the first `n` required partners. A
/// partner not placed yet is skipped: its side of the constraint is
/// checked when it is placed, if it lists this room in turn.
pub open spec fn spec_required_violations_upto(
    c: RoomV,
    adjacent_to: Seq<Seq<char>>,
    placed: Seq<RoomV>,
    n: int,
) -> Seq<Seq<char>>
    decreases n,
{
    if n <= 0 {
        Seq::empty()
    } else {
        spec_required_violations_upto(c, adjacent_to, placed, n - 1) + match spec_find_room(
            placed,
            adjacent_to[n - 1],
        ) {
            Some(p) => if !rects_adjacent(rect_of(c), rect_of(p)) {
                seq![msg_missing_adjacency(adjacent_to[n - 1])]
            } else {
                Seq::empty()
            },
            None => Seq::empty(),
        }
    }
}

/// Forbidden-adjacency violations for the first `n` forbidden partners.
pub open spec fn spec_forbidden_violations_upto(
    c: RoomV,
    not_adjacent_to: Seq<Seq<char>>,
    placed: Seq<RoomV>,
    n: int,
) -> Seq<Seq<char>>
    decreases n,
{
    if n <= 0 {
        Seq::empty()
    } else {
        spec_forbidden_violations_upto(c, not_adjacent_to, placed, n - 1) + if
        spec_has_adjacent_with_id(rect_of(c), placed, not_adjacent_to[n - 1]) {
            seq![msg_forbidden_adjacency(not_adjacent_to[n - 1])]
        } else {
            Seq::empty()
        }
    }
}

/// Every violation message the hard-rule check reports for the candidate
/// `c`, in rule order: boundary, overlaps, exterior wall, required
/// adjacencies, forbidden adjacencies. All rules are evaluated, so the
/// list is complete.
pub open spec fn spec_violations(
    c: RoomV,
    req: RoomRequirementV,
    placed: Seq<RoomV>,
    boundary_width: u32,
    boundary_height: u32,
) -> Seq<Seq<char>> {
    spec_boundary_violations(c, boundary_width, boundary_height) + spec_overlap_violations_upto(
        c,
        placed,
        placed.len() as int,
    ) + spec_exterior_violations(c, req, boundary_width, boundary_height)
        + spec_required_violations_upto(
        c,
        req.adjacent_to,
        placed,
        req.adjacent_to.len() as int,
    ) + spec_forbidden_violations_upto(
        c,
        req.not_adjacent_to,
        placed,
        req.not_adjacent_to.len() as int,
    )
}

/// The candidate `c` satisfies every hard rule: it lies in the boundary,
/// overlaps no placed room, touches an exterior wall when demanded, is
/// adjacent to every required partner already placed, and to no
/// forbidden partner.
pub open spec fn spec_passes(
    c: RoomV,
    req: RoomRequirementV,
    placed: Seq<RoomV>,
    boundary_width: u32,
    boundary_height: u32,
) -> bool {
    &&& rect_within_boundary(rect_of(c), boundary_width, boundary_height)
    &&& forall|k: int|
        0 <= k < placed.len() ==> !rects_overlap(rect_of(c), rect_of(#[trigger] placed[k]))
    &&& (req.has_exterior_wall ==> rect_touches_exterior_wall(
        rect_of(c),
        boundary_width,
        boundary_height,
    ))
    &&& forall|j: int|
        0 <= j < req.adjacent_to.len() ==> match spec_find_room(
            placed,
            #[trigger] req.adjacent_to[j],
        ) {
            Some(p) => rects_adjacent(rect_of(c), rect_of(p)),
            None => true,
        }
    &&& forall|j: int|
        0 <= j < req.not_adjacent_to.len() ==> !spec_has_adjacent_with_id(
            rect_of(c),
            placed,
            #[trigger] req.not_adjacent_to[j],
        )
}

/// The overlap rule contributes no message exactly when `c` overlaps
/// none of the first `n` placed rooms.
proof fn lemma_overlap_violations_empty(c: RoomV, placed: Seq<RoomV>, n: int)
    ensures
        (spec_overlap_violations_upto(c, placed, n).len() == 0) <==> (forall|k: int|
            0 <= k < n ==> !rects_overlap(rect_of(c), rect_of(#[trigger] placed[k]))),
    decreases n,
{
    if n > 0 {
        lemma_overlap_violations_empty(c, placed, n - 1);
    }
}

/// The required-adjacency rule contributes no message exactly when every
/// already-placed required partner among the first `n` is adjacent.
proof fn lemma_required_violations_empty(
    c: RoomV,
    adjacent_to: Seq<Seq<char>>,
    placed: Seq<RoomV>,
    n: int,
)
    ensures
        (spec_required_violations_upto(c, adjacent_to, placed, n).len() == 0) <==> (forall|j: int|
            0 <= j < n ==> match spec_find_room(placed, #[trigger] adjacent_to[j]) {
                Some(p) => rects_adjacent(rect_of(c), rect_of(p)),
                None => true,
            }),
    decreases n,
{
    if n > 0 {
        lemma_required_violations_empty(c, adjacent_to, placed, n - 1);
    }
}

/// The forbidden-adjacency rule contributes no message exactly when no
/// forbidden partner among the first `n` is adjacent.
proof fn lemma_forbidden_violations_empty(
    c: RoomV,
    not_adjacent_to: Seq<Seq<char>>,
    placed: Seq<RoomV>,
    n: int,
)
    ensures
        (spec_forbidden_violations_upto(c, not_adjacent_to, placed, n).len() == 0) <==> (forall|
            j: int,
        |
            0 <= j < n ==> !spec_has_adjacent_with_id(
                rect_of(c),
                placed,
                #[trigger] not_adjacent_to[j],
            )),
    decreases n,
{
    if n > 0 {
        lemma_forbidden_violations_empty(c, not_adjacent_to, placed, n - 1);
    }
}

/// The violation list is empty exactly when every hard rule passes.
pub proof fn lemma_violations_empty_iff_passes(
    c: RoomV,
    req: RoomRequirementV,
    placed: Seq<RoomV>,
    boundary_width: u32,
    boundary_height: u32,
)
    ensures
        (spec_violations(c, req, placed, boundary_width, boundary_height).len() == 0)
            <==> spec_passes(c, req, placed, boundary_width, boundary_height),
{
    lemma_overlap_violations_empty(c, placed, placed.len() as int);
    lemma_required_violations_empty(c, req.adjacent_to, placed, req.adjacent_to.len() as int);
    lemma_forbidden_violations_empty(
        c,
        req.not_adjacent_to,
        placed,
        req.not_adjacent_to.len() as int,
    );
}

/// Find the first already-placed room with the given identifier.
fn find_room_index(already_placed: &Vec<Room>, id: &String) -> (r: Option<usize>)
    ensures
        match r {
            Some(ix) => ix < already_placed.len() && spec_find_room(
                already_placed.deep_view(),
                id@,
            ) == Some(already_placed.deep_view()[ix as int]),
            None => spec_find_room(already_placed.deep_view(), id@) is None,
        },
{
    let ghost p = already_placed.deep_view();
    let mut j: usize = 0;
    while j < already_placed.len()
        invariant
            j <= already_placed.len(),
            p == already_placed.deep_view(),
            spec_find_from(p, id@, 0) == spec_find_from(p, id@, j as int),
        decreases already_placed.len() - j,
    {
        if already_placed[j].id == *id {
            return Some(j);
        }
        j = j + 1;
    }
    None
}

/// Check whether any already-placed room with the given identifier is
/// adjacent to `rect`.
fn any_adjacent_with_id(rect: &Rectangle, already_placed: &Vec<Room>, id: &String) -> (r: bool)
    ensures
        r == spec_has_adjacent_with_id(*rect, already_placed.deep_view(), id@),
{
    let ghost p = already_placed.deep_view();
    let mut found = false;
    let mut j: usize = 0;
    while j < already_placed.len()
        invariant
            j <= already_placed.len(),
            p == already_placed.deep_view(),
            found == exists|k: int|
                0 <= k < j && (#[trigger] p[k]).id == id@ && rects_adjacent(*rect, rect_of(p[k])),
        decreases already_placed.len() - j,
    {
        let mut hit = false;
        if already_placed[j].id == *id {
            let other = Rectangle::from_room(&already_placed[j]);
            if rect.is_adjacent_to(&other) {
                hit = true;
            }
        }
        if hit {
            found = true;
        }
        proof {
            if hit {
                assert(p[j as int].id == id@ && rects_adjacent(*rect, rect_of(p[j as int])));
            }
            if !found {
                assert forall|k: int| 0 <= k < j + 1 implies !((#[trigger] p[k]).id == id@
                    && rects_adjacent(*rect, rect_of(p[k]))) by {}
            }
        }
        j = j + 1;
    }
    found
}

/// Evaluate every hard rule for a candidate placement against the rooms
/// placed so far. Returns whether all rules pass, beside the complete
/// list of violation messages; the rules are evaluated in a fixed order
/// and none short-circuits, so the list names every broken rule.
pub fn check_hard_constraints(
    placed_room: &Room,
    room_req: &RoomRequirement,
    already_placed: &Vec<Room>,
    boundary_width: u32,
    boundary_height: u32,
) -> (r: (bool, Vec<String>))
    ensures
        r.1.deep_view() == spec_violations(
            placed_room@,
            room_req@,
            already_placed.deep_view(),
            boundary_width,
            boundary_height,
        ),
        r.0 == spec_passes(
            placed_room@,
            room_req@,
            already_placed.deep_view(),
            boundary_width,
            boundary_height,
        ),
{
    let ghost c = placed_room@;
    let ghost p = already_placed.deep_view();
    let mut violations: Vec<String> = Vec::new();
    let room_rect = Rectangle::from_room(placed_room);

    // Rule: the room must lie inside the boundary.
    if !room_rect.is_within_boundary(boundary_width, boundary_height) {
        let msg = String::from_str("Room is outside the boundary");
        let ghost pre = violations;
        let ghost msg_g = msg;
        violations.push(msg);
        proof {
            lemma_deep_view_push(pre, violations, msg_g);
        }
    }
    proof {
        assert(violations.deep_view() =~= spec_boundary_violations(
            c,
            boundary_width,
            boundary_height,
        ));
    }

    // Rule: the room must not overlap any already-placed room.
    let mut j: usize = 0;
    while j < already_placed.len()
        invariant
            j <= already_placed.len(),
            p == already_placed.deep_view(),
            room_rect == rect_of(c),
            violations.deep_view() == spec_boundary_violations(c, boundary_width, boundary_height)
                + spec_overlap_violations_upto(c, p, j as int),
        decreases already_placed.len() - j,
    {
        let other = Rectangle::from_room(&already_placed[j]);
        if room_rect.overlaps_with(&other) {
            let msg = String::from_str("Room overlaps with already placed room: ").concat(
                already_placed[j].id.as_str(),
            );
            let ghost pre = violations;
            let ghost msg_g = msg;
            violations.push(msg);
            proof {
                lemma_deep_view_push(pre, violations, msg_g);
            }
        }
        proof {
            assert(violations.deep_view() =~= spec_boundary_violations(
                c,
                boundary_width,
                boundary_height,
            ) + spec_overlap_violations_upto(c, p, j as int + 1));
        }
        j = j + 1;
    }
    let ghost after_overlap = spec_boundary_violations(c, boundary_width, boundary_height)
        + spec_overlap_violations_upto(c, p, p.len() as int);

    // Rule: a room that demands an exterior wall must touch one.
    if room_req.has_exterior_wall {
        if !room_rect.touches_exterior_wall(boundary_width, boundary_height) {
            let msg = String::from_str("Room does not touch the exterior wall");
            let ghost pre = violations;
            let ghost msg_g = msg;
            violations.push(msg);
            proof {
                lemma_deep_view_push(pre, violations, msg_g);
            }
        }
    }
    let ghost after_exterior = after_overlap + spec_exterior_violations(
        c,
        room_req@,
        boundary_width,
        boundary_height,
    );
    proof {
        assert(violations.deep_view() =~= after_exterior);
    }

    // Rule: the room must be adjacent to every required partner that is
    // already placed; partners not placed yet are deferred.
    let mut a: usize = 0;
    while a < room_req.adjacent_to.len()
        invariant
            a <= room_req.adjacent_to.len(),
            p == already_placed.deep_view(),
            room_rect == rect_of(c),
            after_exterior == spec_boundary_violations(c, boundary_width, boundary_height)
                + spec_overlap_violations_upto(c, p, p.len() as int) + spec_exterior_violations(
                c,
                room_req@,
                boundary_width,
                boundary_height,
            ),
            violations.deep_view() == after_exterior + spec_required_violations_upto(
                c,
                room_req@.adjacent_to,
                p,
                a as int,
            ),
        decreases room_req.adjacent_to.len() - a,
    {
        let adjacent = &room_req.adjacent_to[a];
        proof {
            assert(adjacent@ == room_req@.adjacent_to[a as int]);
        }
        match find_room_index(already_placed, adjacent) {
            Some(ix) => {
                let other = Rectangle::from_room(&already_placed[ix]);
                if !room_rect.is_adjacent_to(&other) {
                    let msg = String::from_str("Room is not adjacent to required room: ").concat(
                        adjacent.as_str(),
                    );
                    let ghost pre = violations;
                    let ghost msg_g = msg;
                    violations.push(msg);
                    proof {
                        lemma_deep_view_push(pre, violations, msg_g);
                    }
                }
            },
            None => {},
        }
        proof {
            assert(violations.deep_view() =~= after_exterior + spec_required_violations_upto(
                c,
                room_req@.adjacent_to,
                p,
                a as int + 1,
            ));
        }
        a = a + 1;
    }
    let ghost after_required = after_exterior + spec_required_violations_upto(
        c,
        room_req@.adjacent_to,
        p,
        room_req@.adjacent_to.len() as int,
    );

    // Rule: the room must not be adjacent to any forbidden partner.
    let mut f: usize = 0;
    while f < room_req.not_adjacent_to.len()
        invariant
            f <= room_req.not_adjacent_to.len(),
            p == already_placed.deep_view(),
            room_rect == rect_of(c),
            after_required == spec_boundary_violations(c, boundary_width, boundary_height)
                + spec_overlap_violations_upto(c, p, p.len() as int) + spec_exterior_violations(
                c,
                room_req@,
                boundary_width,
                boundary_height,
            ) + spec_required_violations_upto(
                c,
                room_req@.adjacent_to,
                p,
                room_req@.adjacent_to.len() as int,
            ),
            violations.deep_view() == after_required + spec_forbidden_violations_upto(
                c,
                room_req@.not_adjacent_to,
                p,
                f as int,
            ),
        decreases room_req.not_adjacent_to.len() - f,
    {
        let forbidden = &room_req.not_adjacent_to[f];
        proof {
            assert(forbidden@ == room_req@.not_adjacent_to[f as int]);
        }
        if any_adjacent_with_id(&room_rect, already_placed, forbidden) {
            let msg = String::from_str("Room is adjacent to forbidden room: ").concat(
                forbidden.as_str(),
            );
            let ghost pre = violations;
            let ghost msg_g = msg;
            violations.push(msg);
            proof {
                lemma_deep_view_push(pre, violations, msg_g);
            }
        }
        proof {
            assert(violations.deep_view() =~= after_required + spec_forbidden_violations_upto(
                c,
                room_req@.not_adjacent_to,
                p,
                f as int + 1,
            ));
        }
        f = f + 1;
    }

    proof {
        assert(violations.deep_view() =~= spec_violations(
            c,
            room_req@,
            p,
            boundary_width,
            boundary_height,
        ));
        lemma_violations_empty_iff_passes(c, room_req@, p, boundary_width, boundary_height);
    }
    let is_valid = violations.is_empty();
    (is_valid, violations)
}

// ---------------------------------------------------------------------
// Score components
// ---------------------------------------------------------------------

/// The hard-rule component: everything or nothing.
pub open spec fn spec_hard_score(has_violations: bool) -> u64 {
    if has_violations {
        0
    } else {
        20
    }
}

/// The adjacency bonus before capping: five points for each of the first
/// `n` required partners that is already placed and adjacent.
pub open spec fn spec_adjacency_bonus_upto(
    rect: Rectangle,
    adjacent_to: Seq<Seq<char>>,
    placed: Seq<RoomV>,
    n: int,
) -> int
    decreases n,
{
    if n <= 0 {
        0
    } else {
        spec_adjacency_bonus_upto(rect, adjacent_to, placed, n - 1) + if
        spec_has_adjacent_with_id(rect, placed, adjacent_to[n - 1]) {
            5int
        } else {
            0int
        }
    }
}

/// The soft preference component: the adjacency bonus plus three points
/// for touching an exterior wall, capped at fifteen.
pub open spec fn spec_soft_score(
    c: RoomV,
    req: RoomRequirementV,
    placed: Seq<RoomV>,
    boundary_width: u32,
    boundary_height: u32,
) -> int {
    let raw = spec_adjacency_bonus_upto(
        rect_of(c),
        req.adjacent_to,
        placed,
        req.adjacent_to.len() as int,
    ) + if rect_touches_exterior_wall(rect_of(c), boundary_width, boundary_height) {
        3int
    } else {
        0int
    };
    if raw > 15 {
        15int
    } else {
        raw
    }
}

/// The raw adjacency bonus never goes below zero.
proof fn lemma_adjacency_bonus_nonneg(
    rect: Rectangle,
    adjacent_to: Seq<Seq<char>>,
    placed: Seq<RoomV>,
    n: int,
)
    ensures
        spec_adjacency_bonus_upto(rect, adjacent_to, placed, n) >= 0,
    decreases n,
{
    if n > 0 {
        lemma_adjacency_bonus_nonneg(rect, adjacent_to, placed, n - 1);
    }
}

/// The soft component always lies between zero and its cap.
pub proof fn lemma_soft_score_bounds(
    c: RoomV,
    req: RoomRequirementV,
    placed: Seq<RoomV>,
    boundary_width: u32,
    boundary_height: u32,
)
    ensures
        0 <= spec_soft_score(c, req, placed, boundary_width, boundary_height) <= 15,
{
    lemma_adjacency_bonus_nonneg(
        rect_of(c),
        req.adjacent_to,
        placed,
        req.adjacent_to.len() as int,
    );
}

/// The area-efficiency component, as an exact fraction: ten times the
/// required area over the actual area, capped at ten. A room of exactly
/// the required area scores ten; larger rooms score less.
pub open spec fn spec_efficiency_score(c: RoomV, min_area: u32) -> Frac {
    let area = c.width * c.height;
    if area == 0 || min_area >= area {
        Frac { num: 10, den: 1 }
    } else {
        Frac { num: (10 * min_area) as u64, den: area as u64 }
    }
}

/// The complete score of one candidate placement. A candidate that
/// breaks any hard rule scores zero overall, with the soft and
/// efficiency components zeroed as well; otherwise the total is the
/// hard score, the soft score, the efficiency fraction, and a flat
/// five-point no-violation bonus added together.
pub open spec fn spec_score(
    c: RoomV,
    req: RoomRequirementV,
    placed: Seq<RoomV>,
    boundary_width: u32,
    boundary_height: u32,
) -> PositionScoreV {
    let violations = spec_violations(c, req, placed, boundary_width, boundary_height);
    let has_violations = !spec_passes(c, req, placed, boundary_width, boundary_height);
    if has_violations {
        PositionScoreV {
            total_score: Frac { num: 0, den: 1 },
            hard_constraint_score: 0,
            soft_preference_score: 0,
            space_efficiency_score: Frac { num: 0, den: 1 },
            has_violations: true,
            violation_reasons: violations,
        }
    } else {
        let soft = spec_soft_score(c, req, placed, boundary_width, boundary_height);
        let eff = spec_efficiency_score(c, req.min_area);
        PositionScoreV {
            total_score: Frac {
                num: ((20 + soft + 5) * eff.den + eff.num) as u64,
                den: eff.den,
            },
            hard_constraint_score: 20,
            soft_preference_score: soft as u64,
            space_efficiency_score: eff,
            has_violations: false,
            violation_reasons: violations,
        }
    }
}

/// Compute the hard-rule component of the score.
pub fn calculate_hard_constraint_score(has_violations: bool) -> (score: u64)
    ensures
        score == spec_hard_score(has_violations),
{
    if has_violations {
        return 0;
    }
    20
}

/// Compute the area-efficiency component of the score.
pub fn calculate_space_efficiency_score(placed_room: &Room, room_req: &RoomRequirement) -> (score:
    Frac)
    ensures
        score == spec_efficiency_score(placed_room@, room_req@.min_area),
{
    proof {
        assert((placed_room.width as u64) * (placed_room.height as u64) <= 0xFFFF_FFFFu64
            * 0xFFFF_FFFFu64) by (nonlinear_arith)
            requires
                placed_room.width <= 0xFFFF_FFFFu64,
                placed_room.height <= 0xFFFF_FFFFu64;
    }
    let actual_area = (placed_room.width as u64) * (placed_room.height as u64);
    if actual_area == 0 || room_req.min_area as u64 >= actual_area {
        Frac { num: 10, den: 1 }
    } else {
        Frac { num: 10 * (room_req.min_area as u64), den: actual_area }
    }
}

/// Compute the soft preference component of the score.
pub fn calculate_soft_preference_score(
    placed_room: &Room,
    room_req: &RoomRequirement,
    already_placed: &Vec<Room>,
    boundary_width: u32,
    boundary_height: u32,
) -> (score: u64)
    ensures
        score == spec_soft_score(
            placed_room@,
            room_req@,
            already_placed.deep_view(),
            boundary_width,
            boundary_height,
        ),
{
    let ghost c = placed_room@;
    let ghost p = already_placed.deep_view();
    let mut score: u64 = 0;
    let room_rect = Rectangle::from_room(placed_room);

    // Five points for each satisfied required adjacency. The running
    // value stops growing once past the cap; that leaves the capped
    // result unchanged.
    let mut a: usize = 0;
    while a < room_req.adjacent_to.len()
        invariant
            a <= room_req.adjacent_to.len(),
            p == already_placed.deep_view(),
            room_rect == rect_of(c),
            score <= 19,
            ({
                let raw = spec_adjacency_bonus_upto(
                    rect_of(c),
                    room_req@.adjacent_to,
                    p,
                    a as int,
                );
                (if raw > 15 { 15int } else { raw }) == (if score > 15 { 15int } else { score as int })
            }),
        decreases room_req.adjacent_to.len() - a,
    {
        let adjacent = &room_req.adjacent_to[a];
        proof {
            assert(adjacent@ == room_req@.adjacent_to[a as int]);
        }
        if any_adjacent_with_id(&room_rect, already_placed, adjacent) {
            if score < 15 {
                score = score + 5;
            }
        }
        a = a + 1;
    }

    // Three points for touching an exterior wall, required or not.
    if room_rect.touches_exterior_wall(boundary_width, boundary_height) {
        if score < 15 {
            score = score + 3;
        }
    }

    if score > 15 {
        score = 15;
    }
    score
}

/// Score one candidate placement against the rooms placed so far: check
/// the hard rules, add the soft and efficiency components when all of
/// them pass, and report the violation messages either way.
pub fn score_position(
    placed_room: &Room,
    room_req: &RoomRequirement,
    already_placed: &Vec<Room>,
    boundary_width: u32,
    boundary_height: u32,
) -> (score: PositionScore)
    requires
        placed_room.width <= MAX_DIMENSION,
        placed_room.height <= MAX_DIMENSION,
    ensures
        score.deep_view() == spec_score(
            placed_room@,
            room_req@,
            already_placed.deep_view(),
            boundary_width,
            boundary_height,
        ),
        score.has_violations == !spec_passes(
            placed_room@,
            room_req@,
            already_placed.deep_view(),
            boundary_width,
            boundary_height,
        ),
{
    let ghost c = placed_room@;
    let ghost p = already_placed.deep_view();
    let checked = check_hard_constraints(
        placed_room,
        room_req,
        already_placed,
        boundary_width,
        boundary_height,
    );
    let is_valid = checked.0;
    let violations = checked.1;
    let has_violations = !is_valid;

    if has_violations {
        let result = PositionScore {
            total_score: Frac { num: 0, den: 1 },
            hard_constraint_score: 0,
            soft_preference_score: 0,
            space_efficiency_score: Frac { num: 0, den: 1 },
            has_violations: true,
            violation_reasons: violations,
        };
        return result;
    }

    let soft = calculate_soft_preference_score(
        placed_room,
        room_req,
        already_placed,
        boundary_width,
        boundary_height,
    );
    let efficiency = calculate_space_efficiency_score(placed_room, room_req);
    proof {
        assert(soft <= 15);
        assert(efficiency.num <= 10 * 0xFFFF_FFFFu64 && 1 <= efficiency.den <= 0x2000_0000u64
            * 0x2000_0000u64) by (nonlinear_arith)
            requires
                efficiency == spec_efficiency_score(c, room_req@.min_area),
                c.width <= 0x2000_0000u32,
                c.height <= 0x2000_0000u32,
                room_req@.min_area <= 0xFFFF_FFFFu32;
        assert((20 + soft + 5) * efficiency.den + efficiency.num <= u64::MAX) by (nonlinear_arith)
            requires
                soft <= 15,
                efficiency.num <= 10 * 0xFFFF_FFFFu64,
                efficiency.den <= 0x2000_0000u64 * 0x2000_0000u64;
    }
    let total = Frac {
        num: (20 + soft + 5) * efficiency.den + efficiency.num,
        den: efficiency.den,
    };
    PositionScore {
        total_score: total,
        hard_constraint_score: 20,
        soft_preference_score: soft,
        space_efficiency_score: efficiency,
        has_violations: false,
        violation_reasons: violations,
    }
}

} // verus!
