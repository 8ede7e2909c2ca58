//! Ordering targets by their distance from a position, nearest first.

use crate::grid::{distance, manhattan};
use crate::world::Position;
use vstd::prelude::*;

verus! {

/// `sorted` with `p` put in behind every entry that is no farther from `from`.
pub open spec fn put_in(sorted: Seq<Position>, p: Position, from: Position) -> Seq<Position>
    decreases sorted.len(),
{
    if sorted.len() == 0 || distance(sorted.last(), from) <= distance(p, from) {
        sorted.push(p)
    } else {
        put_in(sorted.drop_last(), p, from).push(sorted.last())
    }
}

/// The targets by their distance from `from`, nearest first. Targets at one
/// distance stay in the order in which they came.
pub open spec fn nearest_first(targets: Seq<Position>, from: Position) -> Seq<Position>
    decreases targets.len(),
{
    if targets.len() == 0 {
        Seq::empty()
    } else {
        put_in(nearest_first(targets.drop_last(), from), targets.last(), from)
    }
}

/// Whether the distances from `from` never decrease along `s`.
pub open spec fn is_nearest_first(s: Seq<Position>, from: Position) -> bool {
    forall|i: int, j: int| 0 <= i <= j < s.len() ==> distance(#[trigger] s[i], from) <= distance(#[trigger] s[j], from)
}

proof fn lemma_put_in(sorted: Seq<Position>, p: Position, from: Position)
    requires
        is_nearest_first(sorted, from),
    ensures
        is_nearest_first(put_in(sorted, p, from), from),
        put_in(sorted, p, from).len() == sorted.len() + 1,
        put_in(sorted, p, from).to_multiset() == sorted.to_multiset().insert(p),
        put_in(sorted, p, from).last() == p || (sorted.len() > 0 && put_in(sorted, p, from).last() == sorted.last()),
    decreases sorted.len(),
{
    broadcast use vstd::seq_lib::group_to_multiset_ensures;

    if sorted.len() > 0 && distance(sorted.last(), from) > distance(p, from) {
        let front = sorted.drop_last();
        assert forall|i: int, j: int| 0 <= i <= j < front.len() implies distance(#[trigger] front[i], from) <= distance(
            #[trigger] front[j],
            from,
        ) by {
            assert(front[i] == sorted[i] && front[j] == sorted[j]);
        }
        lemma_put_in(front, p, from);
        let inner = put_in(front, p, from);
        let whole = inner.push(sorted.last());
        if front.len() > 0 {
            assert(front.last() == sorted[sorted.len() - 2]);
        }
        assert forall|i: int, j: int| 0 <= i <= j < whole.len() implies distance(#[trigger] whole[i], from) <= distance(
            #[trigger] whole[j],
            from,
        ) by {
            if i < inner.len() {
                assert(whole[i] == inner[i]);
                assert(distance(inner[i], from) <= distance(inner[inner.len() - 1], from));
            }
            if j < inner.len() {
                assert(whole[j] == inner[j]);
            }
        }
        assert(sorted =~= front.push(sorted.last()));
        assert(whole.to_multiset() == front.to_multiset().insert(p).insert(sorted.last()));
        assert(sorted.to_multiset() == front.to_multiset().insert(sorted.last()));
        assert(whole.to_multiset() =~= sorted.to_multiset().insert(p));
    }
}

/// The targets come out nearest first, and they are the same targets.
pub proof fn law_nearest_first_sorts(targets: Seq<Position>, from: Position)
    ensures
        is_nearest_first(nearest_first(targets, from), from),
        nearest_first(targets, from).len() == targets.len(),
        nearest_first(targets, from).to_multiset() == targets.to_multiset(),
    decreases targets.len(),
{
    broadcast use vstd::seq_lib::group_to_multiset_ensures;

    if targets.len() > 0 {
        law_nearest_first_sorts(targets.drop_last(), from);
        lemma_put_in(nearest_first(targets.drop_last(), from), targets.last(), from);
        assert(targets =~= targets.drop_last().push(targets.last()));
    } else {
        assert(nearest_first(targets, from) =~= targets);
    }
}

/// Filtering a sequence that grew by one entry.
pub proof fn lemma_filter_push(s: Seq<Position>, p: Position, at: spec_fn(Position) -> bool)
    ensures
        s.push(p).filter(at) == if at(p) {
            s.filter(at).push(p)
        } else {
            s.filter(at)
        },
{
    reveal(Seq::filter);
    assert(s.push(p).drop_last() =~= s);
}

proof fn lemma_put_in_is_stable(sorted: Seq<Position>, p: Position, from: Position, d: nat)
    ensures
        put_in(sorted, p, from).filter(|q: Position| distance(q, from) == d) == sorted.push(p).filter(
            |q: Position| distance(q, from) == d,
        ),
    decreases sorted.len(),
{
    let at = |q: Position| distance(q, from) == d;
    if sorted.len() > 0 && distance(sorted.last(), from) > distance(p, from) {
        let front = sorted.drop_last();
        let inner = put_in(front, p, from);
        lemma_put_in_is_stable(front, p, from, d);
        lemma_filter_push(inner, sorted.last(), at);
        lemma_filter_push(front, p, at);
        lemma_filter_push(front, sorted.last(), at);
        lemma_filter_push(sorted, p, at);
        assert(sorted =~= front.push(sorted.last()));
    }
}

/// Targets at one distance come out in the order in which they came.
pub proof fn law_nearest_first_is_stable(targets: Seq<Position>, from: Position, d: nat)
    ensures
        nearest_first(targets, from).filter(|q: Position| distance(q, from) == d) == targets.filter(
            |q: Position| distance(q, from) == d,
        ),
    decreases targets.len(),
{
    let at = |q: Position| distance(q, from) == d;
    if targets.len() > 0 {
        let front = targets.drop_last();
        law_nearest_first_is_stable(front, from, d);
        lemma_put_in_is_stable(nearest_first(front, from), targets.last(), from, d);
        lemma_filter_push(nearest_first(front, from), targets.last(), at);
        lemma_filter_push(front, targets.last(), at);
        assert(targets =~= front.push(targets.last()));
    } else {
        assert(nearest_first(targets, from) =~= targets);
    }
}

/// Where an entry is put in.
proof fn lemma_put_in_at(sorted: Seq<Position>, p: Position, from: Position, k: int)
    requires
        0 <= k <= sorted.len(),
        k > 0 ==> distance(sorted[k - 1], from) <= distance(p, from),
        forall|i: int| k <= i < sorted.len() ==> distance(#[trigger] sorted[i], from) > distance(p, from),
    ensures
        put_in(sorted, p, from) == sorted.insert(k, p),
    decreases sorted.len(),
{
    if k < sorted.len() {
        assert(distance(sorted[sorted.len() - 1], from) > distance(p, from));
        lemma_put_in_at(sorted.drop_last(), p, from, k);
        assert(sorted.drop_last().insert(k, p).push(sorted.last()) =~= sorted.insert(k, p));
    } else {
        assert(sorted.push(p) =~= sorted.insert(k, p));
    }
}

/// Sorts targets by their distance from `from`, nearest first.
pub fn sort_by_distance(targets: &Vec<Position>, from: Position) -> (sorted: Vec<Position>)
    ensures
        sorted@ == nearest_first(targets@, from),
{
    let mut sorted: Vec<Position> = Vec::with_capacity(targets.len());
    for i in 0..targets.len()
        invariant
            sorted@ == nearest_first(targets@.take(i as int), from),
    {
        let p = targets[i];
        let d = manhattan(p, from);
        let mut k: usize = sorted.len();
        while k > 0 && manhattan(sorted[k - 1], from) > d
            invariant
                k <= sorted@.len(),
                d == distance(p, from),
                forall|j: int| k <= j < sorted@.len() ==> distance(#[trigger] sorted@[j], from) > distance(p, from),
            decreases k,
        {
            k -= 1;
        }
        proof {
            lemma_put_in_at(sorted@, p, from, k as int);
            assert(targets@.take(i + 1).drop_last() =~= targets@.take(i as int));
        }
        sorted.insert(k, p);
    }
    assert(targets@.take(targets@.len() as int) =~= targets@);
    sorted
}

/// How many of the nearest targets a collector chooses among.
pub const CHOICES: usize = 3;

/// How many targets there are to choose among, out of `len`.
pub open spec fn choices(len: nat) -> nat {
    if len < CHOICES {
        len
    } else {
        CHOICES as nat
    }
}

/// Whether `p` is one of the nearest targets, among which there is a choice.
pub open spec fn is_choice(targets: Seq<Position>, from: Position, p: Position) -> bool {
    exists|k: int| 0 <= k < choices(targets.len()) && p == #[trigger] nearest_first(targets, from)[k]
}

/// The target that a draw among the nearest ones picks.
pub fn nth_nearest(targets: &Vec<Position>, from: Position, draw: usize) -> (target: Position)
    requires
        draw < choices(targets@.len()),
    ensures
        target == nearest_first(targets@, from)[draw as int],
        targets@.contains(target),
{
    let sorted = sort_by_distance(targets, from);
    proof {
        broadcast use vstd::seq_lib::group_to_multiset_ensures;

        law_nearest_first_sorts(targets@, from);
        assert(sorted@.contains(sorted@[draw as int]));
        assert(sorted@.to_multiset().count(sorted@[draw as int]) > 0);
    }
    sorted[draw]
}

/// There are three targets to choose among, or as many as there are if those are
/// fewer.
pub proof fn law_three_to_choose_among(len: nat)
    ensures
        choices(len) <= 3,
        choices(len) <= len,
        choices(len) == 3 || choices(len) == len,
{
}

/// A choice is a target, and whatever target is left out is no nearer than any
/// choice.
pub proof fn law_choices_are_the_nearest(targets: Seq<Position>, from: Position, p: Position, k: int)
    requires
        is_choice(targets, from, p),
        choices(targets.len()) <= k < targets.len(),
    ensures
        targets.contains(p),
        distance(p, from) <= distance(nearest_first(targets, from)[k], from),
{
    broadcast use vstd::seq_lib::group_to_multiset_ensures;

    law_nearest_first_sorts(targets, from);
    let sorted = nearest_first(targets, from);
    let j = choose|j: int| 0 <= j < choices(targets.len()) && p == #[trigger] sorted[j];
    assert(sorted.contains(sorted[j]));
    assert(sorted.to_multiset().count(p) > 0);
}

} // verus!
