//! The backtracking solver: depth-first search through each room's
//! scored candidate space, in requirement order, until every room is
//! placed or the space is exhausted.
//!
//! The search is mirrored by specification functions, so the returned
//! placement is pinned exactly: the solver is a pure function of its
//! inputs, and two calls on equal inputs return equal solutions.

use vstd::prelude::*;
use vstd::multiset::Multiset;
use crate::candidate_generation::{
    generate_candidate_positions, lemma_candidate_area_exact, lemma_candidate_dims_bounded,
    spec_candidate_positions,
};
use crate::geometry::{
    lemma_overlap_symmetric, rect_of, rect_touches_exterior_wall, rect_within_boundary,
    rects_adjacent, rects_overlap,
};
use crate::room_ordering::{
    lemma_order_len, lemma_order_multiset, order_rooms_by_constraints, spec_constraint_count,
    spec_order,
};
use crate::scoring::{
    score_position, spec_find_from, spec_find_room, spec_frac_le, spec_has_adjacent_with_id,
    spec_passes, spec_score, Frac, PositionScore, PositionScoreV, MAX_DIMENSION,
};
use crate::types::{
    lemma_deep_view_insert, lemma_deep_view_push, Room, RoomRequirement, RoomRequirementV, RoomV,
};

verus! {

/// A complete placement: every requested room with its position and
/// size, the summed quality score, and a validity flag.
pub struct LayoutSolution {
    pub rooms: Vec<Room>,
    pub total_score: Frac,
    pub is_valid: bool,
}

/// The one failure the solver reports: the search exhausted every
/// candidate without placing all rooms.
#[derive(Debug, Clone)]
pub enum SolverError {
    NoSolutionFound(String),
}

// ---------------------------------------------------------------------
// The search space, mirrored in specification functions
// ---------------------------------------------------------------------

/// The scored candidates that survive the hard rules, among the first
/// `n`, each paired with its score, in enumeration order.
pub open spec fn spec_kept_upto(
    cands: Seq<RoomV>,
    req: RoomRequirementV,
    placed: Seq<RoomV>,
    boundary_width: u32,
    boundary_height: u32,
    n: int,
) -> Seq<(PositionScoreV, RoomV)>
    decreases n,
{
    if n <= 0 {
        Seq::empty()
    } else {
        let prev = spec_kept_upto(cands, req, placed, boundary_width, boundary_height, n - 1);
        let sc = spec_score(cands[n - 1], req, placed, boundary_width, boundary_height);
        if !sc.has_violations {
            prev.push((sc, cands[n - 1]))
        } else {
            prev
        }
    }
}

/// Every surviving scored candidate for `req` under the placement
/// `placed`.
pub open spec fn spec_kept(
    cands: Seq<RoomV>,
    req: RoomRequirementV,
    placed: Seq<RoomV>,
    boundary_width: u32,
    boundary_height: u32,
) -> Seq<(PositionScoreV, RoomV)> {
    spec_kept_upto(cands, req, placed, boundary_width, boundary_height, cands.len() as int)
}

/// Insert a scored candidate after every one whose total is at least as
/// high: the insertion step of a stable descending sort by total score.
pub open spec fn spec_insert_scored(
    s: Seq<(PositionScoreV, RoomV)>,
    x: (PositionScoreV, RoomV),
) -> Seq<(PositionScoreV, RoomV)>
    decreases s.len(),
{
    if s.len() == 0 {
        seq![x]
    } else if spec_frac_le(x.0.total_score, s[0].0.total_score) {
        seq![s[0]] + spec_insert_scored(s.drop_first(), x)
    } else {
        seq![x] + s
    }
}

pub open spec fn spec_sort_scored_upto(s: Seq<(PositionScoreV, RoomV)>, n: int) -> Seq<
    (PositionScoreV, RoomV),
>
    decreases n,
{
    if n <= 0 {
        Seq::empty()
    } else {
        spec_insert_scored(spec_sort_scored_upto(s, n - 1), s[n - 1])
    }
}

/// The surviving candidates sorted by total score, descending, stably:
/// candidates of equal score keep their enumeration order.
pub open spec fn spec_sort_scored(s: Seq<(PositionScoreV, RoomV)>) -> Seq<
    (PositionScoreV, RoomV),
> {
    spec_sort_scored_upto(s, s.len() as int)
}

/// The depth-first search from requirement `ri` under the placement
/// `placed`: the first complete placement it reaches, or `None` when
/// every branch fails.
pub open spec fn spec_solve_rec(
    reqs: Seq<RoomRequirementV>,
    ri: int,
    placed: Seq<RoomV>,
    boundary_width: u32,
    boundary_height: u32,
) -> Option<Seq<RoomV>>
    decreases reqs.len() - ri, 1int, 0int,
{
    if ri < 0 || ri >= reqs.len() {
        Some(placed)
    } else {
        let sorted = spec_sort_scored(
            spec_kept(
                spec_candidate_positions(reqs[ri], boundary_width, boundary_height),
                reqs[ri],
                placed,
                boundary_width,
                boundary_height,
            ),
        );
        spec_try_candidates(reqs, ri, sorted, 0, placed, boundary_width, boundary_height)
    }
}

/// Try the sorted candidates from index `ci` on: recurse on the first
/// whose subtree succeeds, and fail when none does.
pub open spec fn spec_try_candidates(
    reqs: Seq<RoomRequirementV>,
    ri: int,
    sorted: Seq<(PositionScoreV, RoomV)>,
    ci: int,
    placed: Seq<RoomV>,
    boundary_width: u32,
    boundary_height: u32,
) -> Option<Seq<RoomV>>
    decreases reqs.len() - ri, 0int, sorted.len() - ci,
{
    if ri < 0 || ri >= reqs.len() || ci < 0 || ci >= sorted.len() {
        None
    } else {
        let sub = spec_solve_rec(
            reqs,
            ri + 1,
            placed.push(sorted[ci].1),
            boundary_width,
            boundary_height,
        );
        if sub is Some {
            sub
        } else {
            spec_try_candidates(
                reqs,
                ri,
                sorted,
                ci + 1,
                placed,
                boundary_width,
                boundary_height,
            )
        }
    }
}

// ---------------------------------------------------------------------
// Validity of a (partial) placement
// ---------------------------------------------------------------------

/// The first `n` placed rooms realise the first `n` requirements, in
/// order: same identifier, exactly the required area, and every hard
/// rule satisfied against the rooms placed before.
pub open spec fn spec_layout_ok_upto(
    placed: Seq<RoomV>,
    reqs: Seq<RoomRequirementV>,
    n: int,
    boundary_width: u32,
    boundary_height: u32,
) -> bool {
    &&& placed.len() == n
    &&& 0 <= n <= reqs.len()
    &&& forall|k: int| 0 <= k < n ==> (#[trigger] placed[k]).id == reqs[k].id
    &&& forall|k: int|
        0 <= k < n ==> (#[trigger] placed[k]).width * placed[k].height == reqs[k].min_area
    &&& forall|k: int|
        0 <= k < n ==> spec_passes(
            #[trigger] placed[k],
            reqs[k],
            placed.subrange(0, k),
            boundary_width,
            boundary_height,
        )
}

// ---------------------------------------------------------------------
// Lemmas carrying facts through filtering and sorting
// ---------------------------------------------------------------------

/// Every kept pair is a candidate that passes every hard rule, paired
/// with its exact score.
proof fn lemma_kept_elements(
    cands: Seq<RoomV>,
    req: RoomRequirementV,
    placed: Seq<RoomV>,
    boundary_width: u32,
    boundary_height: u32,
    n: int,
)
    requires
        n <= cands.len(),
    ensures
        forall|j: int|
            0 <= j < spec_kept_upto(cands, req, placed, boundary_width, boundary_height, n).len()
                ==> {
                let pair = #[trigger] spec_kept_upto(
                    cands,
                    req,
                    placed,
                    boundary_width,
                    boundary_height,
                    n,
                )[j];
                &&& pair.0 == spec_score(pair.1, req, placed, boundary_width, boundary_height)
                &&& spec_passes(pair.1, req, placed, boundary_width, boundary_height)
                &&& exists|k: int| 0 <= k < n && k < cands.len() && pair.1 == cands[k]
            },
    decreases n,
{
    if n > 0 {
        lemma_kept_elements(cands, req, placed, boundary_width, boundary_height, n - 1);
        let prev = spec_kept_upto(cands, req, placed, boundary_width, boundary_height, n - 1);
        let cur = spec_kept_upto(cands, req, placed, boundary_width, boundary_height, n);
        let sc = spec_score(cands[n - 1], req, placed, boundary_width, boundary_height);
        assert forall|j: int| 0 <= j < cur.len() implies {
            let pair = #[trigger] cur[j];
            &&& pair.0 == spec_score(pair.1, req, placed, boundary_width, boundary_height)
            &&& spec_passes(pair.1, req, placed, boundary_width, boundary_height)
            &&& exists|k: int| 0 <= k < n && k < cands.len() && pair.1 == cands[k]
        } by {
            if j < prev.len() {
                assert(cur[j] == prev[j]);
                let pair = prev[j];
                assert(pair.0 == spec_score(pair.1, req, placed, boundary_width, boundary_height));
                let k = choose|k: int| 0 <= k < n - 1 && k < cands.len() && pair.1 == cands[k];
                assert(0 <= k < n && k < cands.len() && pair.1 == cands[k]);
            } else {
                assert(0 <= n - 1 < n && n - 1 < cands.len() && cur[j].1 == cands[n - 1]);
            }
        }
    }
}

proof fn lemma_insert_scored_len(s: Seq<(PositionScoreV, RoomV)>, x: (PositionScoreV, RoomV))
    ensures
        spec_insert_scored(s, x).len() == s.len() + 1,
    decreases s.len(),
{
    if s.len() > 0 && spec_frac_le(x.0.total_score, s[0].0.total_score) {
        lemma_insert_scored_len(s.drop_first(), x);
    }
}

proof fn lemma_insert_scored_multiset(s: Seq<(PositionScoreV, RoomV)>, x: (PositionScoreV, RoomV))
    ensures
        spec_insert_scored(s, x).to_multiset() == s.to_multiset().insert(x),
    decreases s.len(),
{
    broadcast use vstd::seq_lib::group_to_multiset_ensures;

    if s.len() == 0 {
        assert(seq![x] =~= Seq::empty().push(x));
        assert(s.to_multiset() =~= Multiset::empty());
    } else if spec_frac_le(x.0.total_score, s[0].0.total_score) {
        let rest = s.drop_first();
        lemma_insert_scored_multiset(rest, x);
        vstd::seq_lib::lemma_multiset_commutative(seq![s[0]], spec_insert_scored(rest, x));
        vstd::seq_lib::lemma_multiset_commutative(seq![s[0]], rest);
        assert(s =~= seq![s[0]] + rest);
        assert(seq![s[0]].to_multiset() =~= Multiset::empty().insert(s[0])) by {
            assert(seq![s[0]] =~= Seq::empty().push(s[0]));
        }
        assert(spec_insert_scored(s, x).to_multiset() =~= s.to_multiset().insert(x));
    } else {
        vstd::seq_lib::lemma_multiset_commutative(seq![x], s);
        assert(seq![x].to_multiset() =~= Multiset::empty().insert(x)) by {
            assert(seq![x] =~= Seq::empty().push(x));
        }
        assert(spec_insert_scored(s, x).to_multiset() =~= s.to_multiset().insert(x));
    }
}

proof fn lemma_sort_scored_upto_multiset(s: Seq<(PositionScoreV, RoomV)>, n: int)
    requires
        0 <= n <= s.len(),
    ensures
        spec_sort_scored_upto(s, n).to_multiset() == s.subrange(0, n).to_multiset(),
    decreases n,
{
    broadcast use vstd::seq_lib::group_to_multiset_ensures;

    if n > 0 {
        lemma_sort_scored_upto_multiset(s, n - 1);
        lemma_insert_scored_multiset(spec_sort_scored_upto(s, n - 1), s[n - 1]);
        assert(s.subrange(0, n) =~= s.subrange(0, n - 1).push(s[n - 1]));
    } else {
        assert(s.subrange(0, 0) =~= Seq::<(PositionScoreV, RoomV)>::empty());
        assert(Seq::<(PositionScoreV, RoomV)>::empty().to_multiset() =~= Multiset::empty());
    }
}

/// Sorting permutes the kept candidates, so every sorted element keeps
/// the kept elements' properties.
proof fn lemma_sorted_elements(
    cands: Seq<RoomV>,
    req: RoomRequirementV,
    placed: Seq<RoomV>,
    boundary_width: u32,
    boundary_height: u32,
)
    ensures
        ({
            let kept = spec_kept(cands, req, placed, boundary_width, boundary_height);
            let sorted = spec_sort_scored(kept);
            &&& sorted.len() == kept.len()
            &&& forall|j: int|
                0 <= j < sorted.len() ==> {
                    let pair = #[trigger] sorted[j];
                    &&& pair.0 == spec_score(pair.1, req, placed, boundary_width, boundary_height)
                    &&& spec_passes(pair.1, req, placed, boundary_width, boundary_height)
                    &&& exists|k: int| 0 <= k < cands.len() && pair.1 == cands[k]
                }
        }),
{
    broadcast use vstd::seq_lib::group_to_multiset_ensures;

    let kept = spec_kept(cands, req, placed, boundary_width, boundary_height);
    let sorted = spec_sort_scored(kept);
    lemma_kept_elements(cands, req, placed, boundary_width, boundary_height, cands.len() as int);
    lemma_sort_scored_upto_multiset(kept, kept.len() as int);
    assert(kept.subrange(0, kept.len() as int) =~= kept);
    assert(sorted.to_multiset().len() == kept.to_multiset().len());
    assert(sorted.len() == kept.len());
    assert forall|j: int| 0 <= j < sorted.len() implies {
        let pair = #[trigger] sorted[j];
        &&& pair.0 == spec_score(pair.1, req, placed, boundary_width, boundary_height)
        &&& spec_passes(pair.1, req, placed, boundary_width, boundary_height)
        &&& exists|k: int| 0 <= k < cands.len() && pair.1 == cands[k]
    } by {
        let pair = sorted[j];
        assert(sorted.contains(pair));
        assert(sorted.to_multiset().count(pair) > 0);
        assert(kept.to_multiset().count(pair) > 0);
        assert(kept.contains(pair));
        let w = choose|w: int| 0 <= w < kept.len() && kept[w] == pair;
        assert(kept[w].0 == spec_score(kept[w].1, req, placed, boundary_width, boundary_height));
        let k = choose|k: int|
            0 <= k < cands.len() && k < cands.len() && kept[w].1 == cands[k];
        assert(0 <= k < cands.len() && pair.1 == cands[k]);
    }
}

/// Where the scan stops is exactly where the specification's insertion
/// puts the scored candidate.
proof fn lemma_insert_scored_at(
    s: Seq<(PositionScoreV, RoomV)>,
    x: (PositionScoreV, RoomV),
    j: int,
)
    requires
        0 <= j <= s.len(),
        forall|kk: int|
            0 <= kk < j ==> spec_frac_le(x.0.total_score, (#[trigger] s[kk]).0.total_score),
        j == s.len() || !spec_frac_le(x.0.total_score, s[j].0.total_score),
    ensures
        spec_insert_scored(s, x) == s.insert(j, x),
    decreases j,
{
    if j == 0 {
        assert(spec_insert_scored(s, x) =~= s.insert(0, x));
    } else {
        let rest = s.drop_first();
        assert(forall|kk: int| 0 <= kk < rest.len() ==> rest[kk] == s[kk + 1]);
        lemma_insert_scored_at(rest, x, j - 1);
        assert(spec_insert_scored(s, x) == seq![s[0]] + spec_insert_scored(rest, x));
        assert(spec_insert_scored(s, x) =~= s.insert(j, x));
    }
}

// ---------------------------------------------------------------------
// The executable search
// ---------------------------------------------------------------------

/// Sort the scored candidates by total score, descending; the sort is
/// stable, so equal scores keep the candidate generator's order.
fn sort_scored_candidates(scored: Vec<(PositionScore, Room)>) -> (sorted: Vec<
    (PositionScore, Room),
>)
    ensures
        sorted.deep_view() == spec_sort_scored(scored.deep_view()),
{
    let ghost orig = scored.deep_view();
    let mut remaining = scored;
    let mut sorted: Vec<(PositionScore, Room)> = Vec::new();
    let mut i: usize = 0;
    let ghost n = orig.len();
    let initial_len = remaining.len();
    proof {
        assert(n == initial_len);
        assert(remaining.deep_view() == orig.subrange(0, n as int)) by {
            assert(orig.subrange(0, n as int) =~= orig);
        }
    }
    while remaining.len() > 0
        invariant
            i <= n,
            n <= usize::MAX,
            n == orig.len(),
            remaining.deep_view() == orig.subrange(i as int, n as int),
            remaining@.len() == n - i,
            sorted.deep_view() == spec_sort_scored_upto(orig, i as int),
        decreases remaining@.len(),
    {
        let ghost pre_rem = remaining;
        let x = remaining.remove(0);
        proof {
            assert(pre_rem.deep_view()[0] == pre_rem@[0].deep_view());
            assert(x.deep_view() == orig[i as int]);
            assert forall|j: int| 0 <= j < remaining.deep_view().len() implies
                #[trigger] remaining.deep_view()[j] == orig.subrange(i as int + 1, n as int)[j] by {
                assert(remaining@[j] == pre_rem@[j + 1]);
                assert(pre_rem.deep_view()[j + 1] == pre_rem@[j + 1].deep_view());
                assert(remaining.deep_view()[j] == remaining@[j].deep_view());
            }
            assert(remaining.deep_view() =~= orig.subrange(i as int + 1, n as int));
        }
        let x_total = x.0.total_score;
        let mut pos: usize = 0;
        while pos < sorted.len() && sorted[pos].0.total_score.ge(&x_total)
            invariant
                pos <= sorted@.len(),
                x_total == x.deep_view().0.total_score,
                forall|j: int|
                    0 <= j < pos ==> spec_frac_le(
                        x.deep_view().0.total_score,
                        (#[trigger] sorted@[j]).deep_view().0.total_score,
                    ),
            decreases sorted@.len() - pos,
        {
            pos = pos + 1;
        }
        proof {
            assert forall|j: int| 0 <= j < pos implies spec_frac_le(
                x.deep_view().0.total_score,
                (#[trigger] sorted.deep_view()[j]).0.total_score,
            ) by {
                assert(sorted.deep_view()[j] == sorted@[j].deep_view());
            }
            if pos < sorted@.len() {
                assert(sorted.deep_view()[pos as int] == sorted@[pos as int].deep_view());
                assert(!spec_frac_le(
                    x.deep_view().0.total_score,
                    sorted.deep_view()[pos as int].0.total_score,
                ));
            }
            lemma_insert_scored_at(sorted.deep_view(), x.deep_view(), pos as int);
        }
        let ghost pre_sorted = sorted;
        let ghost xg = x;
        sorted.insert(pos, x);
        proof {
            lemma_deep_view_insert(pre_sorted, sorted, xg, pos as int);
            assert(sorted.deep_view() =~= spec_insert_scored(
                pre_sorted.deep_view(),
                xg.deep_view(),
            ));
        }
        i = i + 1;
    }
    proof {
        assert(sorted.deep_view() == spec_sort_scored_upto(orig, n as int));
    }
    sorted
}

/// Place the requirements from index `ri` on, depth first: generate the
/// current room's candidates, keep and sort the ones that pass every
/// hard rule, and recurse on each in score order until one branch
/// completes. On success the placement stack holds one room per
/// requirement; on failure it is exactly as it was.
fn solve_recursive(
    ordered: &Vec<RoomRequirement>,
    ri: usize,
    placed: &mut Vec<Room>,
    boundary_width: u32,
    boundary_height: u32,
) -> (found: bool)
    requires
        boundary_width <= MAX_DIMENSION,
        boundary_height <= MAX_DIMENSION,
        ri <= ordered@.len(),
        old(placed)@.len() == ri,
        spec_layout_ok_upto(
            old(placed).deep_view(),
            ordered.deep_view(),
            ri as int,
            boundary_width,
            boundary_height,
        ),
    ensures
        found == (spec_solve_rec(
            ordered.deep_view(),
            ri as int,
            old(placed).deep_view(),
            boundary_width,
            boundary_height,
        ) is Some),
        found ==> final(placed).deep_view() == spec_solve_rec(
            ordered.deep_view(),
            ri as int,
            old(placed).deep_view(),
            boundary_width,
            boundary_height,
        ).unwrap(),
        !found ==> final(placed).deep_view() == old(placed).deep_view(),
        found ==> spec_layout_ok_upto(
            final(placed).deep_view(),
            ordered.deep_view(),
            ordered@.len() as int,
            boundary_width,
            boundary_height,
        ),
        found ==> final(placed)@.len() == ordered@.len(),
        !found ==> final(placed)@.len() == ri,
    decreases ordered@.len() - ri,
{
    let ghost reqs = ordered.deep_view();
    let ghost placed0 = old(placed).deep_view();

    let nreqs = ordered.len();
    if ri == nreqs {
        return true;
    }

    let current_room = &ordered[ri];
    let ghost req = reqs[ri as int];
    proof {
        assert(current_room.deep_view() == req);
    }
    let candidates = generate_candidate_positions(current_room, boundary_width, boundary_height);
    let ghost cands = spec_candidate_positions(req, boundary_width, boundary_height);

    // Score every candidate and keep the ones without violations.
    let mut scored: Vec<(PositionScore, Room)> = Vec::new();
    let mut i: usize = 0;
    proof {
        lemma_candidate_dims_bounded(req, boundary_width, boundary_height);
    }
    while i < candidates.len()
        invariant
            i <= candidates@.len(),
            boundary_width <= MAX_DIMENSION,
            boundary_height <= MAX_DIMENSION,
            candidates.deep_view() == cands,
            current_room.deep_view() == req,
            placed.deep_view() == placed0,
            forall|j: int|
                0 <= j < cands.len() ==> (#[trigger] cands[j]).width <= boundary_width
                    && cands[j].height <= boundary_height,
            scored.deep_view() == spec_kept_upto(
                cands,
                req,
                placed0,
                boundary_width,
                boundary_height,
                i as int,
            ),
        decreases candidates@.len() - i,
    {
        let candidate = candidates[i].clone();
        proof {
            assert(candidates.deep_view()[i as int] == candidates@[i as int].deep_view());
            assert(candidate.deep_view() == cands[i as int]);
        }
        let score = score_position(
            &candidate,
            current_room,
            placed,
            boundary_width,
            boundary_height,
        );
        let ghost sc_v = score.deep_view();
        let ghost cd_v = candidate.deep_view();
        if !score.has_violations {
            let ghost pre = scored;
            let pair = (score, candidate);
            let ghost pair_g = pair;
            scored.push(pair);
            proof {
                lemma_deep_view_push(pre, scored, pair_g);
                assert(pair_g.deep_view() == (sc_v, cd_v));
            }
        }
        proof {
            assert(scored.deep_view() =~= spec_kept_upto(
                cands,
                req,
                placed0,
                boundary_width,
                boundary_height,
                i as int + 1,
            ));
        }
        i = i + 1;
    }
    let ghost kept = spec_kept(cands, req, placed0, boundary_width, boundary_height);
    proof {
        assert(scored.deep_view() == kept);
    }

    // Sort by total score, best first.
    let sorted = sort_scored_candidates(scored);
    let ghost sorted_v = spec_sort_scored(kept);
    proof {
        assert(sorted.deep_view() == sorted_v);
        lemma_sorted_elements(cands, req, placed0, boundary_width, boundary_height);
        lemma_candidate_area_exact(req, boundary_width, boundary_height);
        assert(spec_solve_rec(reqs, ri as int, placed0, boundary_width, boundary_height)
            == spec_try_candidates(reqs, ri as int, sorted_v, 0, placed0, boundary_width, boundary_height));
    }

    // Try each surviving candidate in order.
    let mut ci: usize = 0;
    while ci < sorted.len()
        invariant
            ci <= sorted@.len(),
            boundary_width <= MAX_DIMENSION,
            boundary_height <= MAX_DIMENSION,
            ri < nreqs,
            nreqs == reqs.len(),
            reqs == ordered.deep_view(),
            placed0 == old(placed).deep_view(),
            ri == placed0.len(),
            req == reqs[ri as int],
            placed@.len() == ri,
            placed.deep_view() == placed0,
            sorted.deep_view() == sorted_v,
            spec_layout_ok_upto(placed0, reqs, ri as int, boundary_width, boundary_height),
            forall|j: int|
                0 <= j < sorted_v.len() ==> {
                    let pair = #[trigger] sorted_v[j];
                    &&& pair.0 == spec_score(pair.1, req, placed0, boundary_width, boundary_height)
                    &&& spec_passes(pair.1, req, placed0, boundary_width, boundary_height)
                    &&& exists|k: int| 0 <= k < cands.len() && pair.1 == cands[k]
                },
            forall|j: int|
                0 <= j < cands.len() ==> (#[trigger] cands[j]).width * cands[j].height
                    == req.min_area && cands[j].id == req.id,
            spec_solve_rec(reqs, ri as int, placed0, boundary_width, boundary_height)
                == spec_try_candidates(
                reqs,
                ri as int,
                sorted_v,
                ci as int,
                placed0,
                boundary_width,
                boundary_height,
            ),
        decreases sorted@.len() - ci,
    {
        let candidate = sorted[ci].1.clone();
        proof {
            assert(sorted.deep_view()[ci as int] == sorted@[ci as int].deep_view());
            assert(candidate.deep_view() == sorted_v[ci as int].1);
        }
        let ghost pre_placed = *placed;
        let ghost cand_g = candidate;
        placed.push(candidate);
        proof {
            lemma_deep_view_push(pre_placed, *placed, cand_g);
            let c = sorted_v[ci as int].1;
            let new_placed = placed0.push(c);
            assert(placed.deep_view() == new_placed);
            // The pushed candidate realises requirement `ri`, so the
            // extended prefix is valid too.
            let k0 = choose|k: int| 0 <= k < cands.len() && c == cands[k];
            assert(c.width * c.height == req.min_area && c.id == req.id);
            assert(new_placed.subrange(0, ri as int) =~= placed0);
            assert forall|k: int| 0 <= k < ri + 1 implies spec_passes(
                #[trigger] new_placed[k],
                reqs[k],
                new_placed.subrange(0, k),
                boundary_width,
                boundary_height,
            ) by {
                assert(new_placed.subrange(0, k) =~= placed0.subrange(0, k));
                if k < ri {
                    assert(spec_passes(
                        placed0[k],
                        reqs[k],
                        placed0.subrange(0, k),
                        boundary_width,
                        boundary_height,
                    ));
                } else {
                    assert(new_placed.subrange(0, ri as int) =~= placed0);
                }
            }
            assert(spec_layout_ok_upto(
                new_placed,
                reqs,
                ri as int + 1,
                boundary_width,
                boundary_height,
            ));
        }
        let found = solve_recursive(ordered, ri + 1, placed, boundary_width, boundary_height);
        if found {
            proof {
                let sub = spec_solve_rec(
                    reqs,
                    ri as int + 1,
                    placed0.push(sorted_v[ci as int].1),
                    boundary_width,
                    boundary_height,
                );
                assert(sub is Some);
                assert(spec_try_candidates(
                    reqs,
                    ri as int,
                    sorted_v,
                    ci as int,
                    placed0,
                    boundary_width,
                    boundary_height,
                ) == sub);
                let outcome = spec_solve_rec(
                    reqs,
                    ri as int,
                    placed0,
                    boundary_width,
                    boundary_height,
                );
                assert(outcome == sub);
                assert(outcome is Some);
                assert(placed.deep_view() == outcome.unwrap());
            }
            return true;
        }
        let ghost pre_pop = *placed;
        let _popped = placed.pop();
        proof {
            assert(pre_pop.deep_view() == placed0.push(sorted_v[ci as int].1));
            assert(placed@ == pre_pop@.drop_last());
            assert forall|j: int| 0 <= j < placed.deep_view().len() implies
                #[trigger] placed.deep_view()[j] == placed0[j] by {
                assert(placed@[j] == pre_pop@[j]);
                assert(pre_pop.deep_view()[j] == pre_pop@[j].deep_view());
                assert(placed.deep_view()[j] == placed@[j].deep_view());
            }
            assert(placed.deep_view() =~= placed0);
            let sub = spec_solve_rec(
                reqs,
                ri as int + 1,
                placed0.push(sorted_v[ci as int].1),
                boundary_width,
                boundary_height,
            );
            assert(sub is None);
            assert(spec_try_candidates(
                reqs,
                ri as int,
                sorted_v,
                ci as int,
                placed0,
                boundary_width,
                boundary_height,
            ) == spec_try_candidates(
                reqs,
                ri as int,
                sorted_v,
                ci as int + 1,
                placed0,
                boundary_width,
                boundary_height,
            ));
        }
        ci = ci + 1;
    }
    proof {
        assert(spec_try_candidates(
            reqs,
            ri as int,
            sorted_v,
            ci as int,
            placed0,
            boundary_width,
            boundary_height,
        ) is None);
    }
    false
}

// ---------------------------------------------------------------------
// From a completed search to the advertised solution properties
// ---------------------------------------------------------------------

/// No two requirements share an identifier.
pub open spec fn spec_req_ids_distinct(reqs: Seq<RoomRequirementV>) -> bool {
    forall|i: int, j: int|
        0 <= i < j < reqs.len() ==> (#[trigger] reqs[i]).id != (#[trigger] reqs[j]).id
}

/// The first requirement carrying `id`, scanning from index `i`.
pub open spec fn spec_find_req_from(reqs: Seq<RoomRequirementV>, id: Seq<char>, i: int) -> Option<
    RoomRequirementV,
>
    decreases reqs.len() - i,
{
    if i < 0 || i >= reqs.len() {
        None
    } else if reqs[i].id == id {
        Some(reqs[i])
    } else {
        spec_find_req_from(reqs, id, i + 1)
    }
}

/// The first requirement carrying `id`, if any.
pub open spec fn spec_find_req(reqs: Seq<RoomRequirementV>, id: Seq<char>) -> Option<
    RoomRequirementV,
> {
    spec_find_req_from(reqs, id, 0)
}

/// The summed total score of the first `n` rooms of a placement, each
/// scored against the rooms before it, under the requirement found by
/// its identifier — the same replay the solver reports.
pub open spec fn spec_replay_num_upto(
    rooms: Seq<RoomV>,
    reqs: Seq<RoomRequirementV>,
    boundary_width: u32,
    boundary_height: u32,
    n: int,
) -> int
    decreases n,
{
    if n <= 0 {
        0
    } else {
        spec_replay_num_upto(rooms, reqs, boundary_width, boundary_height, n - 1)
            + match spec_find_req(reqs, rooms[n - 1].id) {
            Some(rq) => spec_score(
                rooms[n - 1],
                rq,
                rooms.subrange(0, n - 1),
                boundary_width,
                boundary_height,
            ).total_score.num as int,
            None => 0,
        }
    }
}

/// The placement the whole pipeline returns for the given requirements,
/// if any: the requirements are sorted by constrainedness and the
/// depth-first search is run from an empty placement stack.
pub open spec fn spec_solution_rooms(
    reqs: Seq<RoomRequirementV>,
    boundary_width: u32,
    boundary_height: u32,
) -> Option<Seq<RoomV>> {
    spec_solve_rec(spec_order(reqs), 0, Seq::empty(), boundary_width, boundary_height)
}

/// Determinism law: the placement the pipeline returns is a function of
/// the requirements and the boundary alone. [`solve_layout`] ensures its
/// result equals [`spec_solution_rooms`] on its inputs and its reported
/// total equals [`spec_replay_num_upto`] over that placement, so two
/// calls with identical inputs return identical rooms, in the same
/// order, with the same score.
pub proof fn lemma_solver_deterministic(
    reqs1: Seq<RoomRequirementV>,
    reqs2: Seq<RoomRequirementV>,
    boundary_width1: u32,
    boundary_height1: u32,
    boundary_width2: u32,
    boundary_height2: u32,
)
    requires
        reqs1 == reqs2,
        boundary_width1 == boundary_width2,
        boundary_height1 == boundary_height2,
    ensures
        spec_solution_rooms(reqs1, boundary_width1, boundary_height1) == spec_solution_rooms(
            reqs2,
            boundary_width2,
            boundary_height2,
        ),
{
}

/// The advertised properties of a returned solution: one room per
/// requirement in requirement order; every room inside the boundary; no
/// two rooms overlapping; every room of exactly its required area; every
/// demanded exterior wall touched; every required adjacency to an
/// earlier-placed partner realised, and every forbidden adjacency to an
/// earlier-placed partner avoided.
pub open spec fn spec_valid_solution(
    rooms: Seq<RoomV>,
    reqs: Seq<RoomRequirementV>,
    boundary_width: u32,
    boundary_height: u32,
) -> bool {
    &&& rooms.len() == reqs.len()
    &&& forall|i: int|
        0 <= i < rooms.len() ==> rect_within_boundary(
            rect_of(#[trigger] rooms[i]),
            boundary_width,
            boundary_height,
        )
    &&& forall|i: int, j: int|
        0 <= i < rooms.len() && 0 <= j < rooms.len() && i != j ==> !rects_overlap(
            rect_of(#[trigger] rooms[i]),
            rect_of(#[trigger] rooms[j]),
        )
    &&& forall|i: int| 0 <= i < rooms.len() ==> (#[trigger] rooms[i]).id == reqs[i].id
    &&& forall|i: int|
        0 <= i < rooms.len() ==> (#[trigger] rooms[i]).width * rooms[i].height
            == reqs[i].min_area
    &&& forall|i: int|
        0 <= i < rooms.len() ==> (reqs[i].has_exterior_wall ==> rect_touches_exterior_wall(
            rect_of(#[trigger] rooms[i]),
            boundary_width,
            boundary_height,
        ))
    &&& forall|i: int, j: int|
        0 <= j < i < rooms.len() && reqs[i].adjacent_to.contains((#[trigger] rooms[j]).id)
            ==> rects_adjacent(rect_of(#[trigger] rooms[i]), rect_of(rooms[j]))
    &&& forall|i: int, j: int|
        0 <= j < i < rooms.len() && reqs[i].not_adjacent_to.contains((#[trigger] rooms[j]).id)
            ==> !rects_adjacent(rect_of(#[trigger] rooms[i]), rect_of(rooms[j]))
}

/// In a placement with pairwise distinct identifiers, looking an
/// identifier up finds exactly the room that carries it.
proof fn lemma_find_room_distinct(placed: Seq<RoomV>, id: Seq<char>, j: int, i: int)
    requires
        0 <= i <= j < placed.len(),
        placed[j].id == id,
        forall|a: int, b: int|
            0 <= a < b < placed.len() ==> (#[trigger] placed[a]).id != (#[trigger] placed[b]).id,
    ensures
        spec_find_from(placed, id, i) == Some(placed[j]),
    decreases j - i,
{
    if i < j {
        assert(placed[i].id != placed[j].id);
        lemma_find_room_distinct(placed, id, j, i + 1);
    }
}

/// The requirement-list counterpart of [`lemma_find_room_distinct`].
proof fn lemma_find_req_distinct(reqs: Seq<RoomRequirementV>, id: Seq<char>, j: int, i: int)
    requires
        0 <= i <= j < reqs.len(),
        reqs[j].id == id,
        spec_req_ids_distinct(reqs),
    ensures
        spec_find_req_from(reqs, id, i) == Some(reqs[j]),
    decreases j - i,
{
    if i < j {
        assert(reqs[i].id != reqs[j].id);
        lemma_find_req_distinct(reqs, id, j, i + 1);
    }
}

/// A sequence with two equal entries counts that value at least twice in
/// its multiset.
proof fn lemma_dup_implies_count2(s: Seq<RoomRequirementV>, i: int, j: int)
    requires
        0 <= i < j < s.len(),
        s[i] == s[j],
    ensures
        s.to_multiset().count(s[i]) >= 2,
{
    broadcast use vstd::seq_lib::group_to_multiset_ensures;
    broadcast use vstd::multiset::group_multiset_axioms;

    let t = s.remove(i);
    assert(t.to_multiset() =~= s.to_multiset().remove(s[i]));
    assert(t[j - 1] == s[j]);
    assert(t.contains(t[j - 1]));
    assert(t.to_multiset().count(s[i]) > 0);
}

/// Sorting keeps identifiers pairwise distinct.
proof fn lemma_ordered_ids_distinct(reqs: Seq<RoomRequirementV>)
    requires
        spec_req_ids_distinct(reqs),
    ensures
        spec_req_ids_distinct(spec_order(reqs)),
{
    broadcast use vstd::seq_lib::group_to_multiset_ensures;
    broadcast use vstd::multiset::group_multiset_axioms;

    lemma_order_multiset(reqs);
    let ord = spec_order(reqs);
    assert forall|i: int, j: int| 0 <= i < j < ord.len() implies (#[trigger] ord[i]).id != (
    #[trigger] ord[j]).id by {
        if ord[i].id == ord[j].id {
            assert(ord.contains(ord[i]));
            assert(ord.contains(ord[j]));
            assert(reqs.to_multiset().count(ord[i]) > 0);
            assert(reqs.to_multiset().count(ord[j]) > 0);
            assert(reqs.contains(ord[i]));
            assert(reqs.contains(ord[j]));
            let a = choose|a: int| 0 <= a < reqs.len() && reqs[a] == ord[i];
            let b = choose|b: int| 0 <= b < reqs.len() && reqs[b] == ord[j];
            if a != b {
                assert(reqs[a].id != reqs[b].id);
            } else {
                assert(ord[i] == ord[j]);
                lemma_dup_implies_count2(ord, i, j);
                assert(reqs.to_multiset().count(ord[i]) >= 2);
                assert(reqs.no_duplicates()) by {
                    assert forall|p: int, q: int|
                        0 <= p < reqs.len() && 0 <= q < reqs.len() && p != q implies reqs[p]
                        != reqs[q] by {
                        if p < q {
                            assert(reqs[p].id != reqs[q].id);
                        } else {
                            assert(reqs[q].id != reqs[p].id);
                        }
                    }
                }
                reqs.lemma_multiset_has_no_duplicates();
                assert(false);
            }
        }
    }
}

/// A placement that realises every requirement in order satisfies all
/// advertised solution properties.
proof fn lemma_layout_ok_valid(
    rooms: Seq<RoomV>,
    reqs: Seq<RoomRequirementV>,
    boundary_width: u32,
    boundary_height: u32,
)
    requires
        spec_layout_ok_upto(rooms, reqs, reqs.len() as int, boundary_width, boundary_height),
        spec_req_ids_distinct(reqs),
    ensures
        spec_valid_solution(rooms, reqs, boundary_width, boundary_height),
{
    let n = rooms.len() as int;
    assert forall|a: int, b: int|
        0 <= a < b < n implies (#[trigger] rooms[a]).id != (#[trigger] rooms[b]).id by {
        assert(reqs[a].id != reqs[b].id);
    }
    assert forall|i: int| 0 <= i < n implies rect_within_boundary(
        rect_of(#[trigger] rooms[i]),
        boundary_width,
        boundary_height,
    ) by {
        assert(spec_passes(
            rooms[i],
            reqs[i],
            rooms.subrange(0, i),
            boundary_width,
            boundary_height,
        ));
    }
    assert forall|i: int, j: int|
        0 <= i < n && 0 <= j < n && i != j implies !rects_overlap(
        rect_of(#[trigger] rooms[i]),
        rect_of(#[trigger] rooms[j]),
    ) by {
        if j < i {
            assert(spec_passes(
                rooms[i],
                reqs[i],
                rooms.subrange(0, i),
                boundary_width,
                boundary_height,
            ));
            assert(rooms.subrange(0, i)[j] == rooms[j]);
            assert(!rects_overlap(rect_of(rooms[i]), rect_of(rooms[j])));
        } else {
            assert(spec_passes(
                rooms[j],
                reqs[j],
                rooms.subrange(0, j),
                boundary_width,
                boundary_height,
            ));
            assert(rooms.subrange(0, j)[i] == rooms[i]);
            assert(!rects_overlap(rect_of(rooms[j]), rect_of(rooms[i])));
            lemma_overlap_symmetric(rect_of(rooms[i]), rect_of(rooms[j]));
        }
    }
    assert forall|i: int|
        0 <= i < n implies (reqs[i].has_exterior_wall ==> rect_touches_exterior_wall(
        rect_of(#[trigger] rooms[i]),
        boundary_width,
        boundary_height,
    )) by {
        assert(spec_passes(
            rooms[i],
            reqs[i],
            rooms.subrange(0, i),
            boundary_width,
            boundary_height,
        ));
    }
    assert forall|i: int, j: int|
        0 <= j < i < n && reqs[i].adjacent_to.contains((#[trigger] rooms[j]).id)
        implies rects_adjacent(rect_of(#[trigger] rooms[i]), rect_of(rooms[j])) by {
        assert(spec_passes(
            rooms[i],
            reqs[i],
            rooms.subrange(0, i),
            boundary_width,
            boundary_height,
        ));
        let prior = rooms.subrange(0, i);
        let a = choose|a: int|
            0 <= a < reqs[i].adjacent_to.len() && reqs[i].adjacent_to[a] == rooms[j].id;
        assert forall|p: int, q: int|
            0 <= p < q < prior.len() implies (#[trigger] prior[p]).id != (
        #[trigger] prior[q]).id by {
            assert(prior[p] == rooms[p] && prior[q] == rooms[q]);
            assert(reqs[p].id != reqs[q].id);
        }
        assert(prior[j] == rooms[j]);
        lemma_find_room_distinct(prior, rooms[j].id, j, 0);
        assert(spec_find_room(prior, reqs[i].adjacent_to[a]) == Some(rooms[j]));
        assert(match spec_find_room(prior, reqs[i].adjacent_to[a]) {
            Some(p) => rects_adjacent(rect_of(rooms[i]), rect_of(p)),
            None => true,
        });
    }
    assert forall|i: int, j: int|
        0 <= j < i < n && reqs[i].not_adjacent_to.contains((#[trigger] rooms[j]).id)
        implies !rects_adjacent(rect_of(#[trigger] rooms[i]), rect_of(rooms[j])) by {
        assert(spec_passes(
            rooms[i],
            reqs[i],
            rooms.subrange(0, i),
            boundary_width,
            boundary_height,
        ));
        let prior = rooms.subrange(0, i);
        let a = choose|a: int|
            0 <= a < reqs[i].not_adjacent_to.len() && reqs[i].not_adjacent_to[a] == rooms[j].id;
        assert(!spec_has_adjacent_with_id(
            rect_of(rooms[i]),
            prior,
            reqs[i].not_adjacent_to[a],
        ));
        if rects_adjacent(rect_of(rooms[i]), rect_of(rooms[j])) {
            assert(prior[j] == rooms[j]);
            assert(spec_has_adjacent_with_id(rect_of(rooms[i]), prior, rooms[j].id));
        }
    }
}

/// Find the first requirement with the given identifier.
fn find_req_index(ordered: &Vec<RoomRequirement>, id: &String) -> (r: Option<usize>)
    ensures
        match r {
            Some(ix) => ix < ordered@.len() && spec_find_req(ordered.deep_view(), id@) == Some(
                ordered.deep_view()[ix as int],
            ),
            None => spec_find_req(ordered.deep_view(), id@) is None,
        },
{
    let ghost reqs = ordered.deep_view();
    let mut j: usize = 0;
    while j < ordered.len()
        invariant
            j <= ordered@.len(),
            reqs == ordered.deep_view(),
            spec_find_req_from(reqs, id@, 0) == spec_find_req_from(reqs, id@, j as int),
        decreases ordered@.len() - j,
    {
        if ordered[j].id == *id {
            proof {
                assert(ordered.deep_view()[j as int] == ordered@[j as int].deep_view());
            }
            return Some(j);
        }
        proof {
            assert(ordered.deep_view()[j as int] == ordered@[j as int].deep_view());
        }
        j = j + 1;
    }
    None
}

/// Solve the layout problem: order the requirements most-constrained
/// first, search depth first for a placement that satisfies every hard
/// rule, and replay the scoring over the found placement to report its
/// total quality.
///
/// The result is a pure function of the inputs, pinned exactly by the
/// mirrored search: two calls with equal requirements and boundary
/// return equal solutions. `Ok` is returned precisely when the mirrored
/// search reaches a complete placement; the returned rooms then realise
/// the requirements in most-constrained-first order, inside the
/// boundary, pairwise non-overlapping, each of exactly its required
/// area, with every demanded exterior wall and every checked adjacency
/// rule satisfied.
pub fn solve_layout(
    room_requirements: Vec<RoomRequirement>,
    boundary_width: u32,
    boundary_height: u32,
) -> (result: Result<LayoutSolution, SolverError>)
    requires
        boundary_width <= MAX_DIMENSION,
        boundary_height <= MAX_DIMENSION,
        room_requirements@.len() <= 0x1_0000_0000,
        spec_req_ids_distinct(room_requirements.deep_view()),
        forall|i: int|
            0 <= i < room_requirements@.len() ==> spec_constraint_count(
                #[trigger] room_requirements.deep_view()[i],
            ) <= usize::MAX,
    ensures
        (result is Ok) == (spec_solution_rooms(
            room_requirements.deep_view(),
            boundary_width,
            boundary_height,
        ) is Some),
        result matches Ok(sol) ==> {
            &&& sol.rooms.deep_view() == spec_solution_rooms(
                room_requirements.deep_view(),
                boundary_width,
                boundary_height,
            ).unwrap()
            &&& sol.rooms@.len() == room_requirements@.len()
            &&& sol.is_valid == true
            &&& sol.total_score.den == 1
            &&& sol.total_score.num == spec_replay_num_upto(
                sol.rooms.deep_view(),
                spec_order(room_requirements.deep_view()),
                boundary_width,
                boundary_height,
                sol.rooms@.len() as int,
            )
            &&& spec_valid_solution(
                sol.rooms.deep_view(),
                spec_order(room_requirements.deep_view()),
                boundary_width,
                boundary_height,
            )
        },
        result matches Err(SolverError::NoSolutionFound(m)) ==> m@ == "No solution found"@,
{
    let ghost reqs_v = room_requirements.deep_view();
    let ordered_rooms = order_rooms_by_constraints(room_requirements);
    let ghost ordered_v = spec_order(reqs_v);
    proof {
        assert(ordered_rooms.deep_view() == ordered_v);
        lemma_order_len(reqs_v);
        lemma_ordered_ids_distinct(reqs_v);
    }

    let mut placed: Vec<Room> = Vec::new();
    proof {
        assert(placed.deep_view() =~= Seq::<RoomV>::empty());
        assert(spec_layout_ok_upto(
            placed.deep_view(),
            ordered_v,
            0,
            boundary_width,
            boundary_height,
        ));
    }
    let found = solve_recursive(&ordered_rooms, 0, &mut placed, boundary_width, boundary_height);

    if !found {
        return Err(SolverError::NoSolutionFound(String::from_str("No solution found")));
    }

    let ghost rooms_v = placed.deep_view();
    proof {
        assert(rooms_v == spec_solution_rooms(reqs_v, boundary_width, boundary_height).unwrap());
        assert(spec_layout_ok_upto(
            rooms_v,
            ordered_v,
            ordered_v.len() as int,
            boundary_width,
            boundary_height,
        ));
        lemma_layout_ok_valid(rooms_v, ordered_v, boundary_width, boundary_height);
    }

    // Replay the scoring over the found placement, each room against the
    // rooms placed before it, and sum the per-room totals.
    let mut total_score: u64 = 0;
    let mut prefix: Vec<Room> = Vec::new();
    let mut i: usize = 0;
    let nrooms = placed.len();
    proof {
        assert(prefix.deep_view() =~= rooms_v.subrange(0, 0));
    }
    while i < nrooms
        invariant
            i <= nrooms,
            nrooms == placed@.len(),
            nrooms == rooms_v.len(),
            nrooms <= 0x1_0000_0000,
            boundary_width <= MAX_DIMENSION,
            boundary_height <= MAX_DIMENSION,
            placed.deep_view() == rooms_v,
            ordered_rooms.deep_view() == ordered_v,
            ordered_v.len() == rooms_v.len(),
            spec_req_ids_distinct(ordered_v),
            spec_layout_ok_upto(
                rooms_v,
                ordered_v,
                ordered_v.len() as int,
                boundary_width,
                boundary_height,
            ),
            prefix.deep_view() == rooms_v.subrange(0, i as int),
            total_score <= 50 * i,
            total_score == spec_replay_num_upto(
                rooms_v,
                ordered_v,
                boundary_width,
                boundary_height,
                i as int,
            ),
        decreases nrooms - i,
    {
        let room = &placed[i];
        proof {
            assert(placed.deep_view()[i as int] == placed@[i as int].deep_view());
            assert(room.deep_view() == rooms_v[i as int]);
            lemma_find_req_distinct(ordered_v, rooms_v[i as int].id, i as int, 0);
        }
        let req_ix = match find_req_index(&ordered_rooms, &room.id) {
            Some(ix) => ix,
            None => {
                proof {
                    assert(false);
                }
                0
            },
        };
        proof {
            assert(ordered_v[req_ix as int] == ordered_v[i as int]);
            assert(ordered_rooms.deep_view()[req_ix as int] == ordered_rooms@[req_ix as int].deep_view());
            // The room satisfies its hard rules, so it lies inside the
            // boundary and its sides are within the scorer's cap.
            assert(spec_passes(
                rooms_v[i as int],
                ordered_v[i as int],
                rooms_v.subrange(0, i as int),
                boundary_width,
                boundary_height,
            ));
        }
        let score = score_position(
            room,
            &ordered_rooms[req_ix],
            &prefix,
            boundary_width,
            boundary_height,
        );
        proof {
            let sc = spec_score(
                rooms_v[i as int],
                ordered_v[i as int],
                rooms_v.subrange(0, i as int),
                boundary_width,
                boundary_height,
            );
            assert(score.deep_view() == sc);
            assert(!sc.has_violations);
            assert(rooms_v[i as int].width * rooms_v[i as int].height
                == ordered_v[i as int].min_area);
            crate::scoring::lemma_soft_score_bounds(
                rooms_v[i as int],
                ordered_v[i as int],
                rooms_v.subrange(0, i as int),
                boundary_width,
                boundary_height,
            );
            assert(sc.total_score.den == 1 && sc.total_score.num <= 50);
            assert(score.total_score.num == sc.total_score.num);
        }
        total_score = total_score + score.total_score.num;
        let ghost pre_prefix = prefix;
        let room_copy = placed[i].clone();
        let ghost room_copy_g = room_copy;
        prefix.push(room_copy);
        proof {
            lemma_deep_view_push(pre_prefix, prefix, room_copy_g);
            assert(prefix.deep_view() =~= rooms_v.subrange(0, i as int + 1));
        }
        i = i + 1;
    }

    proof {
        assert(total_score == spec_replay_num_upto(
            rooms_v,
            ordered_v,
            boundary_width,
            boundary_height,
            rooms_v.len() as int,
        ));
    }
    Ok(LayoutSolution { rooms: placed, total_score: Frac { num: total_score, den: 1 }, is_valid: true })
}

} // verus!
