//! Stable ranking: a list is put in order without changing the relative
//! order of entries that tie.

use vstd::prelude::*;

verus! {

/// A type whose values are ranked by a total preorder on their views.
pub trait Ranked: View + Sized {
    /// `a` may stand before `b`: it ranks before `b` or ties with it.
    spec fn precedes(a: Self::V, b: Self::V) -> bool;

    /// Decides `precedes` on two values.
    fn goes_before(&self, other: &Self) -> (b: bool)
        ensures
            b == Self::precedes(self@, other@),
    ;

    /// Of two values one may stand before the other.
    proof fn lemma_total(a: Self::V, b: Self::V)
        ensures
            Self::precedes(a, b) || Self::precedes(b, a),
    ;

    /// What may stand before a value may stand before all that the value may
    /// stand before.
    proof fn lemma_transitive(a: Self::V, b: Self::V, c: Self::V)
        requires
            Self::precedes(a, b),
            Self::precedes(b, c),
        ensures
            Self::precedes(a, c),
    ;
}

/// The views of a list, in order.
pub open spec fn views<A: View>(list: Seq<A>) -> Seq<A::V> {
    list.map_values(|a: A| a@)
}

/// Each entry of `row` may stand before every later one.
pub open spec fn in_order<A: Ranked>(row: Seq<A::V>) -> bool {
    forall|i: int, j: int| 0 <= i < j < row.len() ==> A::precedes(#[trigger] row[i], #[trigger] row[j])
}

/// `p` is the place of `x` in `row` when `x` came before all entries of `row`:
/// behind the entries that rank strictly before it, and before all others.
pub open spec fn is_slot<A: Ranked>(row: Seq<A::V>, x: A::V, p: int) -> bool {
    &&& 0 <= p <= row.len()
    &&& forall|q: int| 0 <= q < p ==> !A::precedes(x, #[trigger] row[q])
    &&& p < row.len() ==> A::precedes(x, row[p])
}

/// The place of `x` in `row`.
pub open spec fn slot<A: Ranked>(row: Seq<A::V>, x: A::V) -> int {
    choose|p: int| is_slot::<A>(row, x, p)
}

/// `list` in ranked order, entries that tie in the order in which they stand
/// in `list`.
pub open spec fn ranked<A: Ranked>(list: Seq<A::V>) -> Seq<A::V>
    decreases list.len(),
{
    if list.len() == 0 {
        list
    } else {
        let rest = ranked::<A>(list.drop_first());
        rest.insert(slot::<A>(rest, list[0]), list[0])
    }
}

proof fn lemma_slot_from<A: Ranked>(row: Seq<A::V>, x: A::V, start: int)
    requires
        0 <= start <= row.len(),
        forall|q: int| 0 <= q < start ==> !A::precedes(x, #[trigger] row[q]),
    ensures
        exists|p: int| is_slot::<A>(row, x, p),
    decreases row.len() - start,
{
    if start == row.len() {
        assert(is_slot::<A>(row, x, start));
    } else if A::precedes(x, row[start]) {
        assert(is_slot::<A>(row, x, start));
    } else {
        lemma_slot_from::<A>(row, x, start + 1);
    }
}

/// Every value has exactly one place in a row.
pub proof fn lemma_slot<A: Ranked>(row: Seq<A::V>, x: A::V)
    ensures
        is_slot::<A>(row, x, slot::<A>(row, x)),
        forall|p: int| is_slot::<A>(row, x, p) ==> p == slot::<A>(row, x),
{
    lemma_slot_from::<A>(row, x, 0);
    let s = slot::<A>(row, x);
    assert forall|p: int| is_slot::<A>(row, x, p) implies p == s by {
        if p < s {
            assert(!A::precedes(x, row[p]));
        } else if s < p {
            assert(!A::precedes(x, row[s]));
        }
    }
}

/// Ranking keeps the entries: the result is as long as the list, and each
/// position of the result holds the entry of some position of the list, no
/// position twice.
pub proof fn lemma_ranked_permutes<A: Ranked>(list: Seq<A::V>) -> (origin: Seq<int>)
    ensures
        ranked::<A>(list).len() == list.len(),
        origin.len() == list.len(),
        forall|i: int| 0 <= i < list.len() ==> 0 <= #[trigger] origin[i] < list.len(),
        forall|i: int| 0 <= i < list.len() ==> #[trigger] ranked::<A>(list)[i] == list[origin[i]],
        forall|i: int, j: int| 0 <= i < j < list.len() ==> #[trigger] origin[i] != #[trigger] origin[j],
        forall|k: int| 0 <= k < list.len() ==> #[trigger] origin.contains(k),
    decreases list.len(),
{
    if list.len() == 0 {
        Seq::empty()
    } else {
        let tail = list.drop_first();
        let prior = lemma_ranked_permutes::<A>(tail);
        let rest = ranked::<A>(tail);
        lemma_slot::<A>(rest, list[0]);
        let p = slot::<A>(rest, list[0]);
        let shifted = prior.map_values(|k: int| k + 1);
        let origin = shifted.insert(p, 0);
        let out = ranked::<A>(list);
        assert(out == rest.insert(p, list[0]));
        assert forall|i: int| 0 <= i < list.len() implies #[trigger] out[i] == list[origin[i]] by {
            if i < p {
                assert(out[i] == rest[i]);
                assert(origin[i] == prior[i] + 1);
                assert(tail[prior[i]] == list[prior[i] + 1]);
            } else if i > p {
                assert(out[i] == rest[i - 1]);
                assert(origin[i] == prior[i - 1] + 1);
                assert(tail[prior[i - 1]] == list[prior[i - 1] + 1]);
            }
        }
        assert forall|k: int| 0 <= k < list.len() implies #[trigger] origin.contains(k) by {
            if k == 0 {
                assert(origin[p] == 0);
            } else {
                assert(prior.contains(k - 1));
                let i0 = choose|i: int| 0 <= i < prior.len() && prior[i] == k - 1;
                if i0 < p {
                    assert(origin[i0] == k);
                } else {
                    assert(origin[i0 + 1] == k);
                }
            }
        }
        origin
    }
}

/// The ranked list is in order.
pub proof fn lemma_ranked_in_order<A: Ranked>(list: Seq<A::V>)
    ensures
        in_order::<A>(ranked::<A>(list)),
    decreases list.len(),
{
    if list.len() > 0 {
        let tail = list.drop_first();
        lemma_ranked_in_order::<A>(tail);
        let rest = ranked::<A>(tail);
        let x = list[0];
        lemma_slot::<A>(rest, x);
        let p = slot::<A>(rest, x);
        let out = rest.insert(p, x);
        assert forall|i: int, j: int| 0 <= i < j < out.len() implies A::precedes(
            #[trigger] out[i],
            #[trigger] out[j],
        ) by {
            if j < p {
                assert(out[i] == rest[i] && out[j] == rest[j]);
            } else if j == p {
                assert(out[i] == rest[i]);
                A::lemma_total(x, rest[i]);
            } else if i == p {
                assert(out[j] == rest[j - 1]);
                if j - 1 > p {
                    A::lemma_transitive(x, rest[p], rest[j - 1]);
                }
            } else if i < p {
                assert(out[i] == rest[i] && out[j] == rest[j - 1]);
            } else {
                assert(out[i] == rest[i - 1] && out[j] == rest[j - 1]);
            }
        }
    }
}

/// A list that is in order is its own ranking.
pub proof fn lemma_ranked_of_ordered<A: Ranked>(list: Seq<A::V>)
    requires
        in_order::<A>(list),
    ensures
        ranked::<A>(list) == list,
    decreases list.len(),
{
    if list.len() > 0 {
        let tail = list.drop_first();
        assert(in_order::<A>(tail)) by {
            assert forall|i: int, j: int| 0 <= i < j < tail.len() implies A::precedes(
                #[trigger] tail[i],
                #[trigger] tail[j],
            ) by {
                assert(tail[i] == list[i + 1] && tail[j] == list[j + 1]);
            }
        }
        lemma_ranked_of_ordered::<A>(tail);
        lemma_slot::<A>(tail, list[0]);
        if tail.len() > 0 {
            assert(tail[0] == list[1]);
        }
        assert(is_slot::<A>(tail, list[0], 0));
        assert(tail.insert(0, list[0]) =~= list);
    }
}

/// `from` rearranges `list` into `other`: each position of `other` holds the
/// entry of a position of `list`, no position twice.
pub open spec fn rearranges<V>(from: Seq<int>, list: Seq<V>, other: Seq<V>) -> bool {
    &&& from.len() == list.len()
    &&& other.len() == list.len()
    &&& forall|i: int| 0 <= i < list.len() ==> 0 <= #[trigger] from[i] < list.len()
    &&& forall|i: int| 0 <= i < list.len() ==> #[trigger] other[i] == list[from[i]]
    &&& forall|i: int, j: int| 0 <= i < j < list.len() ==> #[trigger] from[i] != #[trigger] from[j]
}

/// No two entries of `list` tie.
pub open spec fn never_tie<A: Ranked>(list: Seq<A::V>) -> bool {
    forall|i: int, j: int|
        0 <= i < j < list.len() ==> !(A::precedes(#[trigger] list[i], #[trigger] list[j]) && A::precedes(list[j], list[i]))
}

proof fn lemma_rising_from_below(from: Seq<int>, i: int)
    requires
        0 <= i < from.len(),
        forall|p: int, q: int| 0 <= p < q < from.len() ==> #[trigger] from[p] < #[trigger] from[q],
        forall|p: int| 0 <= p < from.len() ==> 0 <= #[trigger] from[p],
    ensures
        from[i] >= i,
    decreases i,
{
    if i > 0 {
        lemma_rising_from_below(from, i - 1);
        assert(from[i - 1] < from[i]);
    }
}

proof fn lemma_rising_from_above(from: Seq<int>, i: int)
    requires
        0 <= i < from.len(),
        forall|p: int, q: int| 0 <= p < q < from.len() ==> #[trigger] from[p] < #[trigger] from[q],
        forall|p: int| 0 <= p < from.len() ==> #[trigger] from[p] < from.len(),
    ensures
        from[i] <= i,
    decreases from.len() - i,
{
    if i < from.len() - 1 {
        lemma_rising_from_above(from, i + 1);
        assert(from[i] < from[i + 1]);
    }
}

/// Two lists in order, one a rearrangement of the other, are equal where no
/// two entries tie.
pub proof fn lemma_ordered_unique<A: Ranked>(list: Seq<A::V>, other: Seq<A::V>, from: Seq<int>)
    requires
        in_order::<A>(list),
        in_order::<A>(other),
        rearranges(from, list, other),
        never_tie::<A>(list),
    ensures
        other == list,
{
    assert forall|p: int, q: int| 0 <= p < q < from.len() implies #[trigger] from[p] < #[trigger] from[q] by {
        assert(A::precedes(other[p], other[q]));
        assert(other[p] == list[from[p]] && other[q] == list[from[q]]);
        if from[p] > from[q] {
            assert(A::precedes(list[from[q]], list[from[p]]));
        }
    }
    assert forall|i: int| 0 <= i < list.len() implies other[i] == list[i] by {
        lemma_rising_from_below(from, i);
        lemma_rising_from_above(from, i);
    }
    assert(other =~= list);
}

/// Where no two entries tie, the ranking of a list is the ranking of each of
/// its rearrangements.
pub proof fn lemma_ranked_rearranged<A: Ranked>(list: Seq<A::V>, other: Seq<A::V>, from: Seq<int>)
    requires
        rearranges(from, list, other),
        never_tie::<A>(list),
    ensures
        ranked::<A>(other) == ranked::<A>(list),
{
    let first = ranked::<A>(list);
    let second = ranked::<A>(other);
    let first_from = lemma_ranked_permutes::<A>(list);
    let second_from = lemma_ranked_permutes::<A>(other);
    lemma_ranked_in_order::<A>(list);
    lemma_ranked_in_order::<A>(other);
    let n = list.len() as int;
    let across = Seq::new(list.len(), |i: int| first_from.index_of(from[second_from[i]]));
    assert forall|i: int| 0 <= i < n implies 0 <= #[trigger] across[i] < n && first_from[across[i]]
        == from[second_from[i]] by {
        assert(first_from.contains(from[second_from[i]]));
    }
    assert forall|i: int| 0 <= i < n implies #[trigger] second[i] == first[across[i]] by {
        assert(second[i] == other[second_from[i]]);
        assert(other[second_from[i]] == list[from[second_from[i]]]);
        assert(first[across[i]] == list[first_from[across[i]]]);
    }
    assert forall|i: int, j: int| 0 <= i < j < n implies #[trigger] across[i] != #[trigger] across[j] by {
        assert(first_from[across[i]] == from[second_from[i]]);
        assert(first_from[across[j]] == from[second_from[j]]);
        assert(second_from[i] != second_from[j]);
        if second_from[i] < second_from[j] {
            assert(from[second_from[i]] != from[second_from[j]]);
        } else {
            assert(from[second_from[j]] != from[second_from[i]]);
        }
    }
    assert(never_tie::<A>(first)) by {
        assert forall|i: int, j: int| 0 <= i < j < first.len() implies !(A::precedes(
            #[trigger] first[i],
            #[trigger] first[j],
        ) && A::precedes(first[j], first[i])) by {
            assert(first[i] == list[first_from[i]] && first[j] == list[first_from[j]]);
            assert(first_from[i] != first_from[j]);
            if first_from[i] < first_from[j] {
                assert(!(A::precedes(list[first_from[i]], list[first_from[j]]) && A::precedes(
                    list[first_from[j]],
                    list[first_from[i]],
                )));
            } else {
                assert(!(A::precedes(list[first_from[j]], list[first_from[i]]) && A::precedes(
                    list[first_from[i]],
                    list[first_from[j]],
                )));
            }
        }
    }
    lemma_ordered_unique::<A>(first, second, across);
}

/// Puts `items` in ranked order.
pub fn rank<A: Ranked>(items: Vec<A>) -> (out: Vec<A>)
    ensures
        views(out@) == ranked::<A>(views(items@)),
{
    let ghost all = views(items@);
    let mut items = items;
    let mut out: Vec<A> = Vec::new();
    assert(views(out@) =~= ranked::<A>(all.subrange(all.len() as int, all.len() as int)));
    while items.len() > 0
        invariant
            items@.len() <= all.len(),
            views(items@) == all.subrange(0, items@.len() as int),
            views(out@) == ranked::<A>(all.subrange(items@.len() as int, all.len() as int)),
        decreases items.len(),
    {
        let ghost before = items@;
        let ghost row = views(out@);
        let x = items.pop().unwrap();
        assert(x@ == views(before)[before.len() - 1]);
        let mut p: usize = 0;
        while p < out.len() && !x.goes_before(&out[p])
            invariant
                p <= out.len(),
                row == views(out@),
                forall|q: int| 0 <= q < p ==> !A::precedes(x@, #[trigger] row[q]),
            decreases out.len() - p,
        {
            p += 1;
        }
        proof {
            assert(is_slot::<A>(row, x@, p as int));
            lemma_slot::<A>(row, x@);
            let suffix = all.subrange(items@.len() as int, all.len() as int);
            assert(suffix.drop_first() =~= all.subrange(before.len() as int, all.len() as int));
            assert(suffix[0] == x@);
            assert(ranked::<A>(suffix) == row.insert(p as int, x@));
        }
        out.insert(p, x);
        assert(views(out@) =~= row.insert(p as int, x@));
        assert(views(items@) =~= all.subrange(0, items@.len() as int));
    }
    assert(all.subrange(0, all.len() as int) =~= all);
    out
}

} // verus!
