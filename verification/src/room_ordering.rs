//! The room orderer: a stable sort of the requirement list by
//! constrainedness, most-constrained first, fixed before the search
//! begins.

use vstd::prelude::*;
use vstd::multiset::Multiset;
use crate::types::{lemma_deep_view_insert, RoomRequirement, RoomRequirementV};

verus! {

/// The constrainedness of a requirement: how many adjacency entries it
/// carries, plus one for an exterior-wall demand.
pub open spec fn spec_constraint_count(req: RoomRequirementV) -> int {
    req.adjacent_to.len() + req.not_adjacent_to.len() + if req.has_exterior_wall {
        1int
    } else {
        0int
    }
}

/// The predicate "has constrainedness `k`", used to state stability.
pub open spec fn count_is(k: int) -> spec_fn(RoomRequirementV) -> bool {
    |r: RoomRequirementV| spec_constraint_count(r) == k
}

/// Insert `x` into `s` directly after every element at least as
/// constrained: the insertion step of a stable descending sort.
pub open spec fn spec_insert_desc(s: Seq<RoomRequirementV>, x: RoomRequirementV) -> Seq<
    RoomRequirementV,
>
    decreases s.len(),
{
    if s.len() == 0 {
        seq![x]
    } else if spec_constraint_count(s[0]) >= spec_constraint_count(x) {
        seq![s[0]] + spec_insert_desc(s.drop_first(), x)
    } else {
        seq![x] + s
    }
}

/// The first `n` requirements of `s`, sorted by inserting them one by
/// one.
pub open spec fn spec_order_upto(s: Seq<RoomRequirementV>, n: int) -> Seq<RoomRequirementV>
    decreases n,
{
    if n <= 0 {
        Seq::empty()
    } else {
        spec_insert_desc(spec_order_upto(s, n - 1), s[n - 1])
    }
}

/// The requirement list sorted by constrainedness, descending, stably:
/// equally constrained requirements keep their input order.
pub open spec fn spec_order(s: Seq<RoomRequirementV>) -> Seq<RoomRequirementV> {
    spec_order_upto(s, s.len() as int)
}

/// Constrainedness never increases along the sequence.
pub open spec fn spec_sorted_by_constraints(s: Seq<RoomRequirementV>) -> bool {
    forall|i: int, j: int|
        0 <= i < j < s.len() ==> spec_constraint_count(#[trigger] s[i]) >= spec_constraint_count(
            #[trigger] s[j],
        )
}

proof fn lemma_insert_desc_len(s: Seq<RoomRequirementV>, x: RoomRequirementV)
    ensures
        spec_insert_desc(s, x).len() == s.len() + 1,
    decreases s.len(),
{
    if s.len() > 0 && spec_constraint_count(s[0]) >= spec_constraint_count(x) {
        lemma_insert_desc_len(s.drop_first(), x);
    }
}

/// Inserting keeps every constrainedness below a bound that covers the
/// inserted element and the sequence.
proof fn lemma_insert_desc_count_bound(s: Seq<RoomRequirementV>, x: RoomRequirementV, m: int)
    requires
        spec_constraint_count(x) <= m,
        forall|k: int| 0 <= k < s.len() ==> spec_constraint_count(#[trigger] s[k]) <= m,
    ensures
        forall|k: int|
            0 <= k < spec_insert_desc(s, x).len() ==> spec_constraint_count(
                #[trigger] spec_insert_desc(s, x)[k],
            ) <= m,
{
    broadcast use vstd::seq_lib::group_to_multiset_ensures;
    broadcast use vstd::multiset::group_multiset_axioms;

    lemma_insert_desc_multiset(s, x);
    let out = spec_insert_desc(s, x);
    assert forall|k: int| 0 <= k < out.len() implies spec_constraint_count(#[trigger] out[k])
        <= m by {
        assert(out.contains(out[k]));
        assert(out.to_multiset().count(out[k]) > 0);
        if out[k] != x {
            assert(s.to_multiset().count(out[k]) > 0);
            assert(s.contains(out[k]));
            let w = choose|w: int| 0 <= w < s.len() && s[w] == out[k];
            assert(spec_constraint_count(s[w]) <= m);
        }
    }
}

/// Inserting into a sorted sequence keeps it sorted.
proof fn lemma_insert_desc_sorted(s: Seq<RoomRequirementV>, x: RoomRequirementV)
    requires
        spec_sorted_by_constraints(s),
    ensures
        spec_sorted_by_constraints(spec_insert_desc(s, x)),
    decreases s.len(),
{
    let out = spec_insert_desc(s, x);
    if s.len() == 0 {
    } else if spec_constraint_count(s[0]) >= spec_constraint_count(x) {
        let rest = s.drop_first();
        assert(spec_sorted_by_constraints(rest)) by {
            assert(forall|i: int, j: int|
                0 <= i < j < rest.len() ==> spec_constraint_count(#[trigger] rest[i])
                    >= spec_constraint_count(#[trigger] rest[j])) by {
                assert(forall|i: int| 0 <= i < rest.len() ==> rest[i] == s[i + 1]);
            }
        }
        lemma_insert_desc_sorted(rest, x);
        let t = spec_insert_desc(rest, x);
        lemma_insert_desc_count_bound(rest, x, spec_constraint_count(s[0]));
        lemma_insert_desc_len(rest, x);
        assert forall|i: int, j: int| 0 <= i < j < out.len() implies spec_constraint_count(
            #[trigger] out[i],
        ) >= spec_constraint_count(#[trigger] out[j]) by {
            if i == 0 {
                assert(out[j] == t[j - 1]);
                assert(spec_constraint_count(t[j - 1]) <= spec_constraint_count(s[0]));
            } else {
                assert(out[i] == t[i - 1] && out[j] == t[j - 1]);
            }
        }
    } else {
        assert forall|i: int, j: int| 0 <= i < j < out.len() implies spec_constraint_count(
            #[trigger] out[i],
        ) >= spec_constraint_count(#[trigger] out[j]) by {
            if i == 0 {
                assert(out[j] == s[j - 1]);
                if j > 1 {
                    assert(spec_constraint_count(s[0]) >= spec_constraint_count(s[j - 1]));
                }
            } else {
                assert(out[i] == s[i - 1] && out[j] == s[j - 1]);
            }
        }
    }
}

/// Inserting adds exactly the inserted element to the multiset of
/// requirements.
proof fn lemma_insert_desc_multiset(s: Seq<RoomRequirementV>, x: RoomRequirementV)
    ensures
        spec_insert_desc(s, x).to_multiset() == s.to_multiset().insert(x),
    decreases s.len(),
{
    broadcast use vstd::seq_lib::group_to_multiset_ensures;

    if s.len() == 0 {
        assert(seq![x] =~= Seq::empty().push(x));
        assert(s.to_multiset() =~= Multiset::empty());
    } else if spec_constraint_count(s[0]) >= spec_constraint_count(x) {
        let rest = s.drop_first();
        lemma_insert_desc_multiset(rest, x);
        vstd::seq_lib::lemma_multiset_commutative(seq![s[0]], spec_insert_desc(rest, x));
        vstd::seq_lib::lemma_multiset_commutative(seq![s[0]], rest);
        assert(s =~= seq![s[0]] + rest);
        assert(seq![s[0]].to_multiset() =~= Multiset::empty().insert(s[0])) by {
            assert(seq![s[0]] =~= Seq::empty().push(s[0]));
        }
        assert(spec_insert_desc(s, x).to_multiset() =~= s.to_multiset().insert(x));
    } else {
        vstd::seq_lib::lemma_multiset_commutative(seq![x], s);
        assert(seq![x].to_multiset() =~= Multiset::empty().insert(x)) by {
            assert(seq![x] =~= Seq::empty().push(x));
        }
        assert(spec_insert_desc(s, x).to_multiset() =~= s.to_multiset().insert(x));
    }
}

/// The sorted list is as long as the input.
pub proof fn lemma_order_len(s: Seq<RoomRequirementV>)
    ensures
        spec_order(s).len() == s.len(),
{
    lemma_order_upto_len(s, s.len() as int);
}

proof fn lemma_order_upto_len(s: Seq<RoomRequirementV>, n: int)
    requires
        0 <= n,
    ensures
        spec_order_upto(s, n).len() == n,
    decreases n,
{
    if n > 0 {
        lemma_order_upto_len(s, n - 1);
        lemma_insert_desc_len(spec_order_upto(s, n - 1), s[n - 1]);
    }
}

proof fn lemma_order_upto_sorted(s: Seq<RoomRequirementV>, n: int)
    ensures
        spec_sorted_by_constraints(spec_order_upto(s, n)),
    decreases n,
{
    if n > 0 {
        lemma_order_upto_sorted(s, n - 1);
        lemma_insert_desc_sorted(spec_order_upto(s, n - 1), s[n - 1]);
    }
}

/// Ordering law, first half: after sorting, a requirement with strictly
/// more constraints never follows one with fewer — the most constrained
/// rooms are always placed first.
pub proof fn lemma_order_sorted(s: Seq<RoomRequirementV>)
    ensures
        spec_sorted_by_constraints(spec_order(s)),
{
    lemma_order_upto_sorted(s, s.len() as int);
}

proof fn lemma_order_upto_multiset(s: Seq<RoomRequirementV>, n: int)
    requires
        0 <= n <= s.len(),
    ensures
        spec_order_upto(s, n).to_multiset() == s.subrange(0, n).to_multiset(),
    decreases n,
{
    broadcast use vstd::seq_lib::group_to_multiset_ensures;

    if n > 0 {
        lemma_order_upto_multiset(s, n - 1);
        lemma_insert_desc_multiset(spec_order_upto(s, n - 1), s[n - 1]);
        assert(s.subrange(0, n) =~= s.subrange(0, n - 1).push(s[n - 1]));
    } else {
        assert(s.subrange(0, 0) =~= Seq::<RoomRequirementV>::empty());
        assert(Seq::<RoomRequirementV>::empty().to_multiset() =~= Multiset::empty());
    }
}

/// Sorting permutes the input: the multiset of requirements is
/// unchanged.
pub proof fn lemma_order_multiset(s: Seq<RoomRequirementV>)
    ensures
        spec_order(s).to_multiset() == s.to_multiset(),
{
    lemma_order_upto_multiset(s, s.len() as int);
    assert(s.subrange(0, s.len() as int) =~= s);
}

/// A singleton filters to itself or to nothing.
proof fn lemma_filter_singleton(x: RoomRequirementV, pred: spec_fn(RoomRequirementV) -> bool)
    ensures
        seq![x].filter(pred) == if pred(x) {
            seq![x]
        } else {
            Seq::<RoomRequirementV>::empty()
        },
{
    reveal(Seq::filter);
    assert(seq![x].drop_last() =~= Seq::<RoomRequirementV>::empty());
    if pred(x) {
        assert(seq![x].filter(pred) =~= seq![x]);
    } else {
        assert(seq![x].last() == x);
        assert(Seq::<RoomRequirementV>::empty().filter(pred) =~= Seq::<
            RoomRequirementV,
        >::empty());
        assert(seq![x].filter(pred) == seq![x].drop_last().filter(pred));
        assert(seq![x].filter(pred) =~= Seq::<RoomRequirementV>::empty());
    }
}

/// A sequence none of whose elements satisfies the predicate filters to
/// nothing.
proof fn lemma_filter_none(s: Seq<RoomRequirementV>, pred: spec_fn(RoomRequirementV) -> bool)
    requires
        forall|k: int| 0 <= k < s.len() ==> !pred(#[trigger] s[k]),
    ensures
        s.filter(pred) == Seq::<RoomRequirementV>::empty(),
    decreases s.len(),
{
    reveal(Seq::filter);
    if s.len() > 0 {
        assert(forall|k: int|
            0 <= k < s.drop_last().len() ==> !pred(#[trigger] s.drop_last()[k]));
        lemma_filter_none(s.drop_last(), pred);
    }
}

/// Inserting into a sorted sequence appends the element to its
/// constrainedness class and leaves every other class unchanged.
proof fn lemma_insert_desc_filter(s: Seq<RoomRequirementV>, x: RoomRequirementV, k: int)
    requires
        spec_sorted_by_constraints(s),
    ensures
        spec_insert_desc(s, x).filter(count_is(k)) == if spec_constraint_count(x) == k {
            s.filter(count_is(k)).push(x)
        } else {
            s.filter(count_is(k))
        },
    decreases s.len(),
{
    let pred = count_is(k);
    if s.len() == 0 {
        lemma_filter_singleton(x, pred);
        reveal(Seq::filter);
        if pred(x) {
            assert(s.filter(pred).push(x) =~= seq![x]);
        }
    } else if spec_constraint_count(s[0]) >= spec_constraint_count(x) {
        let rest = s.drop_first();
        assert(spec_sorted_by_constraints(rest)) by {
            assert(forall|i: int| 0 <= i < rest.len() ==> rest[i] == s[i + 1]);
        }
        lemma_insert_desc_filter(rest, x, k);
        Seq::filter_distributes_over_add(seq![s[0]], spec_insert_desc(rest, x), pred);
        Seq::filter_distributes_over_add(seq![s[0]], rest, pred);
        assert(s =~= seq![s[0]] + rest);
        if pred(x) {
            Seq::push_distributes_over_add(seq![s[0]].filter(pred), rest.filter(pred), x);
        }
    } else {
        Seq::filter_distributes_over_add(seq![x], s, pred);
        lemma_filter_singleton(x, pred);
        if pred(x) {
            // Every element of `s` is less constrained than `x`, so the
            // class of `x` is empty in `s` and `x` stands alone.
            assert(forall|j: int| 0 <= j < s.len() ==> !pred(#[trigger] s[j])) by {
                assert(forall|j: int|
                    1 <= j < s.len() ==> spec_constraint_count(s[0]) >= spec_constraint_count(
                        #[trigger] s[j],
                    ));
            }
            lemma_filter_none(s, pred);
            assert(spec_insert_desc(s, x).filter(pred) =~= s.filter(pred).push(x));
        }
    }
}

/// Ordering law, second half (stability): for every constrainedness
/// value, the requirements of that class appear in the sorted list in
/// exactly their input order.
pub proof fn lemma_order_stable(s: Seq<RoomRequirementV>, k: int)
    ensures
        spec_order(s).filter(count_is(k)) == s.filter(count_is(k)),
{
    lemma_order_upto_stable(s, s.len() as int, k);
    assert(s.subrange(0, s.len() as int) =~= s);
}

proof fn lemma_order_upto_stable(s: Seq<RoomRequirementV>, n: int, k: int)
    requires
        0 <= n <= s.len(),
    ensures
        spec_order_upto(s, n).filter(count_is(k)) == s.subrange(0, n).filter(count_is(k)),
    decreases n,
{
    let pred = count_is(k);
    if n == 0 {
        reveal(Seq::filter);
        assert(s.subrange(0, 0) =~= Seq::<RoomRequirementV>::empty());
    } else {
        lemma_order_upto_stable(s, n - 1, k);
        lemma_order_upto_sorted(s, n - 1);
        lemma_insert_desc_filter(spec_order_upto(s, n - 1), s[n - 1], k);
        assert(s.subrange(0, n) =~= s.subrange(0, n - 1) + seq![s[n - 1]]);
        Seq::filter_distributes_over_add(s.subrange(0, n - 1), seq![s[n - 1]], pred);
        lemma_filter_singleton(s[n - 1], pred);
        if pred(s[n - 1]) {
            assert(s.subrange(0, n).filter(pred) =~= s.subrange(0, n - 1).filter(pred).push(
                s[n - 1],
            ));
        } else {
            assert(s.subrange(0, n).filter(pred) =~= s.subrange(0, n - 1).filter(pred));
        }
    }
}

/// Count how many constraints a requirement carries: its adjacency
/// entries and an exterior-wall demand.
pub fn count_constraints(room_req: &RoomRequirement) -> (count: usize)
    requires
        spec_constraint_count(room_req@) <= usize::MAX,
    ensures
        count == spec_constraint_count(room_req@),
{
    let mut count: usize = room_req.adjacent_to.len();
    count = count + room_req.not_adjacent_to.len();
    if room_req.has_exterior_wall {
        count = count + 1;
    }
    count
}

/// Sort the requirements by constrainedness, most constrained first.
/// The sort is stable: equally constrained requirements keep the
/// caller's order.
pub fn order_rooms_by_constraints(rooms_reqs: Vec<RoomRequirement>) -> (ordered: Vec<
    RoomRequirement,
>)
    requires
        forall|i: int|
            0 <= i < rooms_reqs@.len() ==> spec_constraint_count(
                #[trigger] rooms_reqs.deep_view()[i],
            ) <= usize::MAX,
    ensures
        ordered.deep_view() == spec_order(rooms_reqs.deep_view()),
{
    let ghost orig = rooms_reqs.deep_view();
    let mut remaining = rooms_reqs;
    let mut ordered: Vec<RoomRequirement> = Vec::new();
    let mut i: usize = 0;
    let ghost n = orig.len();
    let initial_len = remaining.len();
    proof {
        assert(n == initial_len);
        assert(remaining.deep_view() == orig.subrange(0, n as int)) by {
            assert(orig.subrange(0, n as int) =~= orig);
        }
    }
    while remaining.len() > 0
        invariant
            i <= n,
            n <= usize::MAX,
            n == orig.len(),
            remaining.deep_view() == orig.subrange(i as int, n as int),
            remaining@.len() == n - i,
            ordered.deep_view() == spec_order_upto(orig, i as int),
            forall|j: int|
                0 <= j < orig.len() ==> spec_constraint_count(#[trigger] orig[j]) <= usize::MAX,
            forall|j: int|
                0 <= j < ordered@.len() ==> spec_constraint_count(
                    (#[trigger] ordered@[j]).deep_view(),
                ) <= usize::MAX,
        decreases remaining@.len(),
    {
        let ghost pre_rem = remaining;
        let x = remaining.remove(0);
        proof {
            assert(pre_rem.deep_view()[0] == pre_rem@[0].deep_view());
            assert(x.deep_view() == orig[i as int]);
            assert forall|j: int| 0 <= j < remaining.deep_view().len() implies
                #[trigger] remaining.deep_view()[j] == orig.subrange(i as int + 1, n as int)[j] by {
                assert(remaining@[j] == pre_rem@[j + 1]);
                assert(pre_rem.deep_view()[j + 1] == pre_rem@[j + 1].deep_view());
                assert(remaining.deep_view()[j] == remaining@[j].deep_view());
            }
            assert(remaining.deep_view() =~= orig.subrange(i as int + 1, n as int));
        }
        let cx = count_constraints(&x);
        let mut pos: usize = 0;
        while pos < ordered.len() && count_constraints(&ordered[pos]) >= cx
            invariant
                pos <= ordered@.len(),
                cx == spec_constraint_count(x.deep_view()),
                forall|j: int|
                    0 <= j < ordered@.len() ==> spec_constraint_count(
                        (#[trigger] ordered@[j]).deep_view(),
                    ) <= usize::MAX,
                forall|j: int|
                    0 <= j < pos ==> spec_constraint_count((#[trigger] ordered@[j]).deep_view())
                        >= cx,
            decreases ordered@.len() - pos,
        {
            pos = pos + 1;
        }
        proof {
            assert forall|j: int| 0 <= j < ordered.deep_view().len() implies spec_constraint_count(
                #[trigger] ordered.deep_view()[j],
            ) <= usize::MAX by {
                assert(ordered.deep_view()[j] == ordered@[j].deep_view());
            }
            assert forall|j: int| 0 <= j < pos implies spec_constraint_count(
                #[trigger] ordered.deep_view()[j],
            ) >= cx by {
                assert(ordered.deep_view()[j] == ordered@[j].deep_view());
            }
            if pos < ordered@.len() {
                assert(ordered.deep_view()[pos as int] == ordered@[pos as int].deep_view());
                assert(spec_constraint_count(ordered.deep_view()[pos as int]) < cx);
            }
            lemma_insert_desc_at(ordered.deep_view(), x.deep_view(), pos as int);
        }
        let ghost pre_ord = ordered;
        let ghost xg = x;
        ordered.insert(pos, x);
        proof {
            lemma_deep_view_insert(pre_ord, ordered, xg, pos as int);
            assert(ordered.deep_view() =~= spec_insert_desc(pre_ord.deep_view(), xg.deep_view()));
            lemma_insert_desc_count_bound_any(pre_ord.deep_view(), xg.deep_view());
            assert forall|j: int| 0 <= j < ordered@.len() implies spec_constraint_count(
                (#[trigger] ordered@[j]).deep_view(),
            ) <= usize::MAX by {
                assert(ordered.deep_view()[j] == ordered@[j].deep_view());
            }
        }
        i = i + 1;
    }
    proof {
        assert(i == n);
        assert(ordered.deep_view() == spec_order_upto(orig, n as int));
    }
    ordered
}

/// Where the scan stops is exactly where the specification's insertion
/// puts the element.
proof fn lemma_insert_desc_at(s: Seq<RoomRequirementV>, x: RoomRequirementV, j: int)
    requires
        0 <= j <= s.len(),
        forall|kk: int|
            0 <= kk < j ==> spec_constraint_count(#[trigger] s[kk]) >= spec_constraint_count(x),
        j == s.len() || spec_constraint_count(s[j]) < spec_constraint_count(x),
    ensures
        spec_insert_desc(s, x) == s.insert(j, x),
    decreases j,
{
    if j == 0 {
        assert(spec_insert_desc(s, x) =~= s.insert(0, x));
    } else {
        let rest = s.drop_first();
        assert(forall|kk: int| 0 <= kk < rest.len() ==> rest[kk] == s[kk + 1]);
        lemma_insert_desc_at(rest, x, j - 1);
        assert(spec_insert_desc(s, x) == seq![s[0]] + spec_insert_desc(rest, x));
        assert(spec_insert_desc(s, x) =~= s.insert(j, x));
    }
}

/// The elements after an insertion all keep a bound that held before,
/// when the inserted element keeps it too. Stated with the bound taken
/// from the values themselves.
proof fn lemma_insert_desc_count_bound_any(s: Seq<RoomRequirementV>, x: RoomRequirementV)
    requires
        forall|kk: int|
            0 <= kk < s.len() ==> spec_constraint_count(#[trigger] s[kk]) <= usize::MAX,
        spec_constraint_count(x) <= usize::MAX,
    ensures
        forall|kk: int|
            0 <= kk < spec_insert_desc(s, x).len() ==> spec_constraint_count(
                #[trigger] spec_insert_desc(s, x)[kk],
            ) <= usize::MAX,
{
    lemma_insert_desc_count_bound(s, x, usize::MAX as int);
}

} // verus!
