//! Enumeration of the discrete candidate space for a single room: the
//! dimension pairs that reach the required area under a fixed set of
//! aspect ratios, and the grid positions at which such a rectangle fits
//! inside the boundary.

use vstd::prelude::*;
use crate::types::{Room, RoomRequirement, RoomRequirementV, RoomV};

verus! {

/// How many aspect ratios the dimension enumeration tries.
pub open spec fn ratio_count() -> int {
    7
}

/// The fixed table of aspect ratios (width over height) as exact
/// fractions `(numerator, denominator)`: 1/2, 67/100, 4/5, 1/1, 6/5,
/// 3/2 and 2/1.
pub open spec fn spec_ratio(i: int) -> (int, int) {
    if i == 0 {
        (1, 2)
    } else if i == 1 {
        (67, 100)
    } else if i == 2 {
        (4, 5)
    } else if i == 3 {
        (1, 1)
    } else if i == 4 {
        (6, 5)
    } else if i == 5 {
        (3, 2)
    } else {
        (2, 1)
    }
}

/// `k` is the integer nearest to the square root of `num / den`, with a
/// value exactly halfway between two integers rounding up. Equivalently,
/// the real number `sqrt(num / den)` lies in `[k - 1/2, k + 1/2)`, which
/// squared and scaled by `4 * den` gives the two comparisons below.
pub open spec fn is_rounded_sqrt(num: int, den: int, k: int) -> bool {
    &&& 0 <= k
    &&& (k == 0 || den * ((2 * k - 1) * (2 * k - 1)) <= 4 * num)
    &&& 4 * num < den * ((2 * k + 1) * (2 * k + 1))
}

/// The integer nearest to the square root of `num / den`.
pub open spec fn rounded_sqrt(num: int, den: int) -> int {
    choose|k: int| is_rounded_sqrt(num, den, k)
}

/// At most one integer is the rounded square root of `num / den`.
proof fn lemma_rounded_sqrt_unique(num: int, den: int, k1: int, k2: int)
    requires
        den >= 1,
        num >= 0,
        is_rounded_sqrt(num, den, k1),
        is_rounded_sqrt(num, den, k2),
    ensures
        k1 == k2,
{
    if k1 < k2 {
        assert(false) by (nonlinear_arith)
            requires
                den >= 1,
                num >= 0,
                0 <= k1 < k2,
                4 * num < den * ((2 * k1 + 1) * (2 * k1 + 1)),
                den * ((2 * k2 - 1) * (2 * k2 - 1)) <= 4 * num;
    }
    if k2 < k1 {
        assert(false) by (nonlinear_arith)
            requires
                den >= 1,
                num >= 0,
                0 <= k2 < k1,
                4 * num < den * ((2 * k2 + 1) * (2 * k2 + 1)),
                den * ((2 * k1 - 1) * (2 * k1 - 1)) <= 4 * num;
    }
}

/// Some integer is the rounded square root of `num / den`.
proof fn lemma_rounded_sqrt_exists(num: int, den: int)
    requires
        den >= 1,
        num >= 0,
    ensures
        exists|k: int| is_rounded_sqrt(num, den, k),
    decreases num,
{
    if 4 * num < den {
        assert(den * ((2 * 0 + 1) * (2 * 0 + 1)) == den) by (nonlinear_arith);
        assert(is_rounded_sqrt(num, den, 0));
    } else {
        lemma_rounded_sqrt_exists(num - 1, den);
        let k = choose|k: int| #[trigger] is_rounded_sqrt(num - 1, den, k);
        if 4 * num < den * ((2 * k + 1) * (2 * k + 1)) {
            assert(is_rounded_sqrt(num, den, k));
        } else {
            // Stepping from `num - 1` to `num` can push the root past the
            // half-way mark by at most one integer.
            assert(4 * num < den * ((2 * (k + 1) + 1) * (2 * (k + 1) + 1))) by (nonlinear_arith)
                requires
                    den >= 1,
                    k >= 0,
                    4 * (num - 1) < den * ((2 * k + 1) * (2 * k + 1));
            assert(is_rounded_sqrt(num, den, k + 1));
        }
    }
}

/// The rounded square root of `num / den` satisfies its defining
/// property and, for the operand sizes the enumeration uses, stays below
/// `0x20_0000`.
proof fn lemma_rounded_sqrt_in_range(num: int, den: int)
    requires
        1 <= den,
        0 <= num <= 0x64_0000_0000,
    ensures
        is_rounded_sqrt(num, den, rounded_sqrt(num, den)),
        0 <= rounded_sqrt(num, den) <= 0x20_0000,
{
    lemma_rounded_sqrt_exists(num, den);
    let k = rounded_sqrt(num, den);
    assert(is_rounded_sqrt(num, den, k));
    assert(k <= 0x20_0000) by (nonlinear_arith)
        requires
            den >= 1,
            num <= 0x64_0000_0000,
            k >= 0,
            k == 0 || den * ((2 * k - 1) * (2 * k - 1)) <= 4 * num;
}

/// Evaluate the scan's stopping test `den * (2k + 1)^2 > 4 * num`
/// without overflowing.
fn sqrt_scan_continues(num: u64, den: u64, k: u64) -> (r: bool)
    requires
        1 <= den <= 100,
        num <= 0x64_0000_0000,
        k <= 0x20_0000,
    ensures
        r == (den * ((2 * (k as int) + 1) * (2 * (k as int) + 1)) <= 4 * num),
{
    let t: u64 = 2 * k + 1;
    proof {
        assert(t * t <= 0x40_0001u64 * 0x40_0001u64 && den * (t * t) <= 100 * (0x40_0001u64
            * 0x40_0001u64)) by (nonlinear_arith)
            requires
                1 <= den <= 100,
                0 < t <= 0x40_0001;
    }
    den * (t * t) <= 4 * num
}

/// Compute the integer nearest to the square root of `num / den` by
/// scanning upward for the first `k` whose upper half-bound exceeds the
/// fraction.
fn rounded_isqrt(num: u64, den: u64) -> (k: u64)
    requires
        1 <= den <= 100,
        num <= 0x64_0000_0000,
    ensures
        is_rounded_sqrt(num as int, den as int, k as int),
        k as int == rounded_sqrt(num as int, den as int),
        k <= 0x20_0000,
{
    let mut k: u64 = 0;
    while sqrt_scan_continues(num, den, k)
        invariant
            1 <= den <= 100,
            num <= 0x64_0000_0000,
            k <= 0x20_0000,
            k == 0 || den * ((2 * (k as int) - 1) * (2 * (k as int) - 1)) <= 4 * num,
        decreases 0x20_0001 - k,
    {
        proof {
            // The passed test bounds `k` well below its cap: otherwise the
            // squared lower bound would already exceed `4 * num`.
            assert(k < 0x10_0000) by (nonlinear_arith)
                requires
                    1 <= den,
                    num <= 0x64_0000_0000,
                    k >= 0,
                    den * ((2 * (k as int) + 1) * (2 * (k as int) + 1)) <= 4 * num;
        }
        k = k + 1;
    }
    proof {
        let n = num as int;
        let d = den as int;
        assert(is_rounded_sqrt(n, d, k as int));
        lemma_rounded_sqrt_in_range(n, d);
        lemma_rounded_sqrt_unique(n, d, k as int, rounded_sqrt(n, d));
    }
    k
}

/// The dimension pair the aspect ratio at index `i` proposes for
/// `min_area`: width `sqrt(min_area * d / n)` and height
/// `sqrt(min_area * n / d)` grid units, each rounded to the nearest
/// integer. (In metres this is `sqrt(area / ratio)` rounded to the
/// nearest half metre, and the matching height.)
pub open spec fn spec_dim_pair(min_area: u32, i: int) -> (int, int) {
    let r = spec_ratio(i);
    (rounded_sqrt(min_area * r.1, r.0), rounded_sqrt(min_area * r.0, r.1))
}

/// The accepted dimension pairs among the first `i` aspect ratios: a
/// proposed pair is kept only when its product is exactly `min_area`.
pub open spec fn spec_dims_upto(min_area: u32, i: int) -> Seq<(u32, u32)>
    decreases i,
{
    if i <= 0 {
        Seq::empty()
    } else {
        let prev = spec_dims_upto(min_area, i - 1);
        let p = spec_dim_pair(min_area, i - 1);
        if p.0 * p.1 == min_area {
            prev.push((p.0 as u32, p.1 as u32))
        } else {
            prev
        }
    }
}

/// Every dimension pair the enumeration accepts for `min_area`, in ratio
/// table order.
pub open spec fn spec_aspect_candidates(min_area: u32) -> Seq<(u32, u32)> {
    spec_dims_upto(min_area, ratio_count())
}

/// Enumerate `(width, height)` pairs for the given minimum area by trying
/// the fixed aspect ratios, rounding each proposal to the grid, and
/// keeping exactly those whose product equals `min_area`.
pub fn generate_aspect_ratio_candidates(min_area: u32) -> (candidates: Vec<(u32, u32)>)
    ensures
        candidates@ == spec_aspect_candidates(min_area),
{
    let mut candidates: Vec<(u32, u32)> = Vec::new();
    let mut i: usize = 0;
    while i < 7
        invariant
            i <= 7,
            candidates@ == spec_dims_upto(min_area, i as int),
        decreases 7 - i,
    {
        let ratio: (u64, u64) = if i == 0 {
            (1, 2)
        } else if i == 1 {
            (67, 100)
        } else if i == 2 {
            (4, 5)
        } else if i == 3 {
            (1, 1)
        } else if i == 4 {
            (6, 5)
        } else if i == 5 {
            (3, 2)
        } else {
            (2, 1)
        };
        proof {
            assert(ratio.0 == spec_ratio(i as int).0 && ratio.1 == spec_ratio(i as int).1);
            assert((min_area as u64) * ratio.1 <= 0x64_0000_0000 && (min_area as u64) * ratio.0
                <= 0x64_0000_0000) by (nonlinear_arith)
                requires
                    min_area <= 0xFFFF_FFFFu64,
                    1 <= ratio.0 <= 100,
                    1 <= ratio.1 <= 100;
        }
        let width = rounded_isqrt((min_area as u64) * ratio.1, ratio.0);
        let height = rounded_isqrt((min_area as u64) * ratio.0, ratio.1);
        proof {
            assert(width * height <= 0x20_0000u64 * 0x20_0000u64) by (nonlinear_arith)
                requires
                    width <= 0x20_0000,
                    height <= 0x20_0000;
        }
        if width * height == min_area as u64 {
            candidates.push((width as u32, height as u32));
        }
        proof {
            assert(candidates@ =~= spec_dims_upto(min_area, i as int + 1));
        }
        i = i + 1;
    }
    candidates
}

/// How many grid positions fit along one axis: a room extent of `room`
/// units can start at `0 ..= boundary - room`, and nowhere when it is
/// longer than the boundary.
pub open spec fn axis_positions(room: u32, boundary: u32) -> int {
    if room <= boundary {
        boundary - room + 1
    } else {
        0
    }
}

/// All grid positions at which a `room_width` by `room_height` rectangle
/// fits in the boundary, in row-major order: the outer index walks `x`,
/// the inner one `y`.
pub open spec fn spec_grid_positions(
    room_width: u32,
    room_height: u32,
    boundary_width: u32,
    boundary_height: u32,
) -> Seq<(u32, u32)> {
    let nx = axis_positions(room_width, boundary_width);
    let ny = axis_positions(room_height, boundary_height);
    Seq::new((nx * ny) as nat, |i: int| ((i / ny) as u32, (i % ny) as u32))
}

/// Enumerate the grid positions for a room of the given size inside the
/// boundary, row-major.
pub fn generate_grid_positions(
    room_width: u32,
    room_height: u32,
    boundary_width: u32,
    boundary_height: u32,
) -> (positions: Vec<(u32, u32)>)
    ensures
        positions@ == spec_grid_positions(room_width, room_height, boundary_width, boundary_height),
{
    let ghost nx = axis_positions(room_width, boundary_width);
    let ghost ny = axis_positions(room_height, boundary_height);
    let mut positions: Vec<(u32, u32)> = Vec::new();
    let mut x: u64 = 0;
    while x + room_width as u64 <= boundary_width as u64
        invariant
            0 <= x <= nx,
            nx == axis_positions(room_width, boundary_width),
            ny == axis_positions(room_height, boundary_height),
            positions@.len() == x * ny,
            forall|j: int|
                0 <= j < positions@.len() ==> positions@[j] == ((j / ny) as u32, (j % ny) as u32),
        decreases boundary_width as int + 1 - x,
    {
        let mut y: u64 = 0;
        while y + room_height as u64 <= boundary_height as u64
            invariant
                0 <= x < nx,
                0 <= y <= ny,
                nx == axis_positions(room_width, boundary_width),
                ny == axis_positions(room_height, boundary_height),
                positions@.len() == x * ny + y,
                forall|j: int|
                    0 <= j < positions@.len() ==> positions@[j] == (
                        (j / ny) as u32,
                        (j % ny) as u32,
                    ),
            decreases boundary_height as int + 1 - y,
        {
            proof {
                vstd::arithmetic::div_mod::lemma_fundamental_div_mod_converse(
                    x * ny + y,
                    ny,
                    x as int,
                    y as int,
                );
            }
            positions.push((x as u32, y as u32));
            y = y + 1;
        }
        x = x + 1;
        proof {
            assert(x * ny == (x - 1) * ny + ny) by (nonlinear_arith);
        }
    }
    proof {
        assert(positions@.len() == nx * ny) by {
            if x < nx {
                // The outer loop only stops once every start column is used.
                assert(false);
            }
        }
        assert(positions@ =~= spec_grid_positions(
            room_width,
            room_height,
            boundary_width,
            boundary_height,
        ));
    }
    positions
}

/// The candidate rooms one accepted dimension pair contributes: the room
/// at every grid position where it fits.
pub open spec fn spec_rooms_for_dim(
    id: Seq<char>,
    width: u32,
    height: u32,
    boundary_width: u32,
    boundary_height: u32,
) -> Seq<RoomV> {
    spec_grid_positions(width, height, boundary_width, boundary_height).map(
        |i: int, p: (u32, u32)| RoomV { id: id, x: p.0, y: p.1, width: width, height: height },
    )
}

/// The candidate rooms contributed by the first `i` accepted dimension
/// pairs, concatenated in enumeration order.
pub open spec fn spec_candidates_upto(
    req: RoomRequirementV,
    boundary_width: u32,
    boundary_height: u32,
    i: int,
) -> Seq<RoomV>
    decreases i,
{
    if i <= 0 {
        Seq::empty()
    } else {
        let dims = spec_aspect_candidates(req.min_area);
        spec_candidates_upto(req, boundary_width, boundary_height, i - 1) + spec_rooms_for_dim(
            req.id,
            dims[i - 1].0,
            dims[i - 1].1,
            boundary_width,
            boundary_height,
        )
    }
}

/// Every candidate placement for the requirement: the Cartesian product
/// of its accepted dimension pairs with the grid positions where each
/// fits, in enumeration order. This order is what later stages use to
/// break ties between equally scored candidates.
pub open spec fn spec_candidate_positions(
    req: RoomRequirementV,
    boundary_width: u32,
    boundary_height: u32,
) -> Seq<RoomV> {
    spec_candidates_upto(
        req,
        boundary_width,
        boundary_height,
        spec_aspect_candidates(req.min_area).len() as int,
    )
}

/// Every dimension pair a candidate carries multiplies out to exactly the
/// required minimum area.
pub proof fn lemma_candidate_area_exact(
    req: RoomRequirementV,
    boundary_width: u32,
    boundary_height: u32,
)
    ensures
        forall|j: int|
            0 <= j < spec_candidate_positions(req, boundary_width, boundary_height).len() ==> (
            #[trigger] spec_candidate_positions(req, boundary_width, boundary_height)[j]).width
                * spec_candidate_positions(req, boundary_width, boundary_height)[j].height
                == req.min_area && spec_candidate_positions(req, boundary_width, boundary_height)[j].id
                == req.id,
{
    lemma_dims_area_exact(req.min_area, ratio_count());
    lemma_candidates_upto_area(
        req,
        boundary_width,
        boundary_height,
        spec_aspect_candidates(req.min_area).len() as int,
    );
}

/// Every accepted dimension pair among the first `i` ratios multiplies
/// out to exactly `min_area`.
proof fn lemma_dims_area_exact(min_area: u32, i: int)
    ensures
        forall|j: int|
            0 <= j < spec_dims_upto(min_area, i).len() ==> (#[trigger] spec_dims_upto(
                min_area,
                i,
            )[j]).0 * spec_dims_upto(min_area, i)[j].1 == min_area,
    decreases i,
{
    if i > 0 {
        lemma_dims_area_exact(min_area, i - 1);
        let r = spec_ratio(i - 1);
        assert(1 <= r.0 <= 100 && 1 <= r.1 <= 100);
        assert(min_area * r.1 <= 0x64_0000_0000 && min_area * r.0 <= 0x64_0000_0000)
            by (nonlinear_arith)
            requires
                min_area <= 0xFFFF_FFFFu64,
                1 <= r.0 <= 100,
                1 <= r.1 <= 100;
        lemma_rounded_sqrt_in_range(min_area * r.1, r.0);
        lemma_rounded_sqrt_in_range(min_area * r.0, r.1);
        let prev = spec_dims_upto(min_area, i - 1);
        assert forall|j: int| 0 <= j < spec_dims_upto(min_area, i).len() implies (
        #[trigger] spec_dims_upto(min_area, i)[j]).0 * spec_dims_upto(min_area, i)[j].1
            == min_area by {
            if j < prev.len() {
                assert(spec_dims_upto(min_area, i)[j] == prev[j]);
                assert(prev[j].0 * prev[j].1 == min_area);
            }
        }
    }
}

/// Every candidate among the first `i` dimension groups has the exact
/// area and the requirement's identifier.
proof fn lemma_candidates_upto_area(
    req: RoomRequirementV,
    boundary_width: u32,
    boundary_height: u32,
    i: int,
)
    requires
        i <= spec_aspect_candidates(req.min_area).len(),
        forall|j: int|
            0 <= j < spec_aspect_candidates(req.min_area).len() ==> (
            #[trigger] spec_aspect_candidates(req.min_area)[j]).0 * spec_aspect_candidates(
                req.min_area,
            )[j].1 == req.min_area,
    ensures
        forall|j: int|
            0 <= j < spec_candidates_upto(req, boundary_width, boundary_height, i).len() ==> (
            #[trigger] spec_candidates_upto(req, boundary_width, boundary_height, i)[j]).width
                * spec_candidates_upto(req, boundary_width, boundary_height, i)[j].height
                == req.min_area && spec_candidates_upto(req, boundary_width, boundary_height, i)[j].id
                == req.id,
    decreases i,
{
    if i > 0 {
        lemma_candidates_upto_area(req, boundary_width, boundary_height, i - 1);
        let dims = spec_aspect_candidates(req.min_area);
        let prev = spec_candidates_upto(req, boundary_width, boundary_height, i - 1);
        let cur = spec_candidates_upto(req, boundary_width, boundary_height, i);
        let group = spec_rooms_for_dim(
            req.id,
            dims[i - 1].0,
            dims[i - 1].1,
            boundary_width,
            boundary_height,
        );
        assert forall|j: int| 0 <= j < cur.len() implies (#[trigger] cur[j]).width * cur[j].height
            == req.min_area && cur[j].id == req.id by {
            if j < prev.len() {
                assert(cur[j] == prev[j]);
                assert(prev[j].width * prev[j].height == req.min_area && prev[j].id == req.id);
            } else {
                assert(cur[j] == group[j - prev.len()]);
                if 0 <= i - 1 < dims.len() {
                    assert(dims[i - 1].0 * dims[i - 1].1 == req.min_area);
                }
            }
        }
    }
}

/// Every candidate fits the boundary along both axes: a dimension pair
/// only contributes rooms where at least one grid position exists.
pub proof fn lemma_candidate_dims_bounded(
    req: RoomRequirementV,
    boundary_width: u32,
    boundary_height: u32,
)
    ensures
        forall|j: int|
            0 <= j < spec_candidate_positions(req, boundary_width, boundary_height).len() ==> (
            #[trigger] spec_candidate_positions(req, boundary_width, boundary_height)[j]).width
                <= boundary_width && spec_candidate_positions(req, boundary_width, boundary_height)[j].height
                <= boundary_height,
{
    lemma_candidates_upto_bounded(
        req,
        boundary_width,
        boundary_height,
        spec_aspect_candidates(req.min_area).len() as int,
    );
}

proof fn lemma_candidates_upto_bounded(
    req: RoomRequirementV,
    boundary_width: u32,
    boundary_height: u32,
    i: int,
)
    ensures
        forall|j: int|
            0 <= j < spec_candidates_upto(req, boundary_width, boundary_height, i).len() ==> (
            #[trigger] spec_candidates_upto(req, boundary_width, boundary_height, i)[j]).width
                <= boundary_width && spec_candidates_upto(req, boundary_width, boundary_height, i)[j].height
                <= boundary_height,
    decreases i,
{
    if i > 0 {
        lemma_candidates_upto_bounded(req, boundary_width, boundary_height, i - 1);
        let dims = spec_aspect_candidates(req.min_area);
        let prev = spec_candidates_upto(req, boundary_width, boundary_height, i - 1);
        let cur = spec_candidates_upto(req, boundary_width, boundary_height, i);
        let w = dims[i - 1].0;
        let h = dims[i - 1].1;
        let group = spec_rooms_for_dim(req.id, w, h, boundary_width, boundary_height);
        assert forall|j: int| 0 <= j < cur.len() implies (#[trigger] cur[j]).width
            <= boundary_width && cur[j].height <= boundary_height by {
            if j < prev.len() {
                assert(cur[j] == prev[j]);
                assert(prev[j].width <= boundary_width && prev[j].height <= boundary_height);
            } else {
                assert(cur[j] == group[j - prev.len()]);
                // A room exists for this pair, so both axis counts are
                // positive, which means the pair fits the boundary.
                let nx = axis_positions(w, boundary_width);
                let ny = axis_positions(h, boundary_height);
                assert(group.len() == nx * ny);
                if nx == 0 || ny == 0 {
                    assert(nx * ny == 0);
                }
            }
        }
    }
}

/// Enumerate every candidate placement for one room requirement: each
/// accepted dimension pair at each grid position where it fits, in the
/// stable order the solver relies on.
pub fn generate_candidate_positions(
    room_req: &RoomRequirement,
    boundary_width: u32,
    boundary_height: u32,
) -> (candidates: Vec<Room>)
    ensures
        candidates.deep_view() == spec_candidate_positions(room_req@, boundary_width, boundary_height),
{
    let mut candidates: Vec<Room> = Vec::new();
    let aspect_ratio_candidates = generate_aspect_ratio_candidates(room_req.min_area);
    let mut di: usize = 0;
    while di < aspect_ratio_candidates.len()
        invariant
            di <= aspect_ratio_candidates.len(),
            aspect_ratio_candidates@ == spec_aspect_candidates(room_req.min_area),
            candidates.deep_view() == spec_candidates_upto(
                room_req@,
                boundary_width,
                boundary_height,
                di as int,
            ),
        decreases aspect_ratio_candidates.len() - di,
    {
        let width = aspect_ratio_candidates[di].0;
        let height = aspect_ratio_candidates[di].1;
        let grid_positions = generate_grid_positions(
            width,
            height,
            boundary_width,
            boundary_height,
        );
        let ghost group = spec_rooms_for_dim(
            room_req@.id,
            width,
            height,
            boundary_width,
            boundary_height,
        );
        let mut pi: usize = 0;
        while pi < grid_positions.len()
            invariant
                pi <= grid_positions.len(),
                grid_positions@ == spec_grid_positions(
                    width,
                    height,
                    boundary_width,
                    boundary_height,
                ),
                group == spec_rooms_for_dim(
                    room_req@.id,
                    width,
                    height,
                    boundary_width,
                    boundary_height,
                ),
                candidates.deep_view() == spec_candidates_upto(
                    room_req@,
                    boundary_width,
                    boundary_height,
                    di as int,
                ) + group.take(pi as int),
            decreases grid_positions.len() - pi,
        {
            let x = grid_positions[pi].0;
            let y = grid_positions[pi].1;
            let room = Room { id: room_req.id.clone(), x: x, y: y, width: width, height: height };
            proof {
                assert(room.deep_view() == group[pi as int]);
            }
            let ghost pre = candidates.deep_view();
            let ghost pre_elems = candidates@;
            candidates.push(room);
            proof {
                assert forall|j: int| 0 <= j < candidates.deep_view().len() implies
                    #[trigger] candidates.deep_view()[j] == pre.push(room.deep_view())[j] by {
                    if j < pre_elems.len() {
                        assert(candidates@[j] == pre_elems[j]);
                        assert(pre[j] == pre_elems[j].deep_view());
                    }
                }
                assert(candidates.deep_view() =~= pre.push(room.deep_view()));
                assert(group.take(pi + 1) =~= group.take(pi as int).push(group[pi as int]));
                assert(candidates.deep_view() =~= spec_candidates_upto(
                    room_req@,
                    boundary_width,
                    boundary_height,
                    di as int,
                ) + group.take(pi + 1));
            }
            pi = pi + 1;
        }
        proof {
            assert(group.take(group.len() as int) =~= group);
            assert(candidates.deep_view() =~= spec_candidates_upto(
                room_req@,
                boundary_width,
                boundary_height,
                di as int + 1,
            ));
        }
        di = di + 1;
    }
    candidates
}

} // verus!
