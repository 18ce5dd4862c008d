//! Walks in order of their distance from home.
//!
//! Ranking is a stable sort: nearer walks come first, and walks that are
//! equally far stay in the order in which they came.

use vstd::prelude::*;
use vstd::seq_lib::to_multiset_build;
use crate::decode::{all_decode, decoded_all, fails_first, parse_fancy_free_walks_map};
use crate::length::{TOKEN_PATTERN, pattern_accepted};
use crate::document::{Node, placemarks};
use crate::record::{DecodeError, Walk, WalkView, views};

verus! {

/// No walk comes before a nearer one.
pub open spec fn by_distance(walks: Seq<WalkView>) -> bool {
    forall|i: int, j: int| 0 <= i <= j < walks.len() ==> walks[i].distance <= walks[j].distance
}

/// The test for a walk that starts at `distance`.
pub open spec fn starts_at(distance: nat) -> spec_fn(WalkView) -> bool {
    |walk: WalkView| walk.distance == distance
}

/// The walks at `distance` among `walks`, in the order in which they stand
/// there.
pub open spec fn those_at(walks: Seq<WalkView>, distance: nat) -> Seq<WalkView> {
    walks.filter(starts_at(distance))
}

/// `after` holds the walks of `before`, and those that are equally far stand
/// in the order in which they stood in `before`.
pub open spec fn in_turn(before: Seq<WalkView>, after: Seq<WalkView>) -> bool {
    forall|distance: nat| #[trigger] those_at(after, distance) == those_at(before, distance)
}

/// Among walks of which none is at `distance`, there are none at `distance`.
proof fn lemma_none_at(walks: Seq<WalkView>, distance: nat)
    requires
        forall|i: int| 0 <= i < walks.len() ==> (#[trigger] walks[i]).distance != distance,
    ensures
        those_at(walks, distance) == Seq::<WalkView>::empty(),
    decreases walks.len(),
{
    reveal(Seq::filter);
    if walks.len() > 0 {
        lemma_none_at(walks.drop_last(), distance);
    }
}

/// The walks at `distance` after one more walk has come.
proof fn lemma_those_at_push(walks: Seq<WalkView>, walk: WalkView, distance: nat)
    ensures
        those_at(walks.push(walk), distance) == if walk.distance == distance {
            those_at(walks, distance).push(walk)
        } else {
            those_at(walks, distance)
        },
{
    reveal(Seq::filter);
    assert(walks.push(walk).drop_last() == walks);
}

/// Putting a walk behind all that are no farther and before all that are
/// farther keeps the order by distance, and leaves the walk last among those
/// that are equally far.
proof fn lemma_place(ranked: Seq<WalkView>, walk: WalkView, at: int)
    requires
        by_distance(ranked),
        0 <= at <= ranked.len(),
        forall|k: int| 0 <= k < at ==> (#[trigger] ranked[k]).distance <= walk.distance,
        forall|k: int| at <= k < ranked.len() ==> (#[trigger] ranked[k]).distance > walk.distance,
    ensures
        by_distance(ranked.insert(at, walk)),
        in_turn(ranked.push(walk), ranked.insert(at, walk)),
{
    let placed = ranked.insert(at, walk);
    let front = ranked.take(at);
    let back = ranked.skip(at);
    assert(placed == front.push(walk) + back);
    assert(ranked == front + back);
    assert forall|distance: nat| #[trigger]
        those_at(placed, distance) == those_at(ranked.push(walk), distance) by {
        let test = starts_at(distance);
        Seq::filter_distributes_over_add(front.push(walk), back, test);
        Seq::filter_distributes_over_add(front, back, test);
        lemma_those_at_push(front, walk, distance);
        lemma_those_at_push(ranked, walk, distance);
        if walk.distance == distance {
            lemma_none_at(back, distance);
            assert(those_at(front, distance) + Seq::<WalkView>::empty() == those_at(
                front,
                distance,
            ));
            assert(those_at(front, distance).push(walk) + Seq::<WalkView>::empty() == those_at(
                front,
                distance,
            ).push(walk));
        }
    }
}

/// A walk stands as often among `walks` as among those of them that are as
/// far as it is.
proof fn lemma_count_at(walks: Seq<WalkView>, walk: WalkView)
    ensures
        walks.to_multiset().count(walk) == those_at(walks, walk.distance).to_multiset().count(
            walk,
        ),
    decreases walks.len(),
{
    broadcast use vstd::multiset::group_multiset_axioms;

    if walks.len() == 0 {
        lemma_none_at(walks, walk.distance);
        assert(walks =~= Seq::<WalkView>::empty());
    } else {
        let head = walks.drop_last();
        let last = walks.last();
        assert(walks == head.push(last));
        lemma_count_at(head, walk);
        lemma_those_at_push(head, last, walk.distance);
        to_multiset_build(head, last);
        to_multiset_build(those_at(head, walk.distance), last);
        assert(walks.to_multiset().count(walk) == head.to_multiset().count(walk) + if last
            == walk {
            1int
        } else {
            0int
        });
    }
}

/// Ranking neither drops a walk nor makes one up: what keeps the walks in
/// turn holds each walk as often as before.
pub proof fn lemma_in_turn_same_walks(before: Seq<WalkView>, after: Seq<WalkView>)
    requires
        in_turn(before, after),
    ensures
        after.to_multiset() == before.to_multiset(),
        after.len() == before.len(),
{
    assert forall|walk: WalkView|
        after.to_multiset().count(walk) == before.to_multiset().count(walk) by {
        lemma_count_at(after, walk);
        lemma_count_at(before, walk);
        assert(those_at(after, walk.distance) == those_at(before, walk.distance));
    }
    assert(after.to_multiset() =~= before.to_multiset());
    after.to_multiset_ensures();
    before.to_multiset_ensures();
}

/// Two orders by distance that hold the same walks in turn are the same.
proof fn lemma_same_order(first: Seq<WalkView>, second: Seq<WalkView>)
    requires
        by_distance(first),
        by_distance(second),
        in_turn(first, second),
    ensures
        first == second,
    decreases first.len() + second.len(),
{
    if first.len() == 0 || second.len() == 0 {
        lemma_in_turn_same_walks(first, second);
        assert(first =~= second);
    } else {
        let a = first.last();
        let b = second.last();
        let head = first.drop_last();
        let rest = second.drop_last();
        assert(first == head.push(a));
        assert(second == rest.push(b));
        lemma_those_at_push(head, a, a.distance);
        lemma_those_at_push(rest, b, a.distance);
        lemma_those_at_push(head, a, b.distance);
        lemma_those_at_push(rest, b, b.distance);
        assert(those_at(second, a.distance) == those_at(first, a.distance));
        assert(those_at(second, b.distance) == those_at(first, b.distance));
        if a.distance < b.distance {
            assert forall|i: int| 0 <= i < head.len() implies (#[trigger] head[i]).distance
                != b.distance by {
                assert(first[i].distance <= first[first.len() - 1].distance);
            }
            lemma_none_at(head, b.distance);
            assert(those_at(second, b.distance).len() > 0);
            assert(false);
        }
        if b.distance < a.distance {
            assert forall|i: int| 0 <= i < rest.len() implies (#[trigger] rest[i]).distance
                != a.distance by {
                assert(second[i].distance <= second[second.len() - 1].distance);
            }
            lemma_none_at(rest, a.distance);
            assert(those_at(first, a.distance).len() > 0);
            assert(false);
        }
        let here = those_at(head, a.distance).push(a);
        let there = those_at(rest, a.distance).push(b);
        assert(here == there);
        assert(here.last() == there.last());
        assert(here.drop_last() == there.drop_last());
        assert(here.drop_last() == those_at(head, a.distance));
        assert(there.drop_last() == those_at(rest, a.distance));
        assert forall|distance: nat| #[trigger]
            those_at(rest, distance) == those_at(head, distance) by {
            lemma_those_at_push(head, a, distance);
            lemma_those_at_push(rest, b, distance);
            assert(those_at(second, distance) == those_at(first, distance));
        }
        assert(by_distance(head)) by {
            assert forall|i: int, j: int| 0 <= i <= j < head.len() implies head[i].distance
                <= head[j].distance by {
                assert(first[i].distance <= first[j].distance);
            }
        }
        assert(by_distance(rest)) by {
            assert forall|i: int, j: int| 0 <= i <= j < rest.len() implies rest[i].distance
                <= rest[j].distance by {
                assert(second[i].distance <= second[j].distance);
            }
        }
        lemma_same_order(head, rest);
    }
}

/// There is one ranking of given walks: two orders by distance that both
/// keep the walks of `before` in turn are the same.
pub proof fn lemma_one_ranking(before: Seq<WalkView>, first: Seq<WalkView>, second: Seq<WalkView>)
    requires
        by_distance(first),
        in_turn(before, first),
        by_distance(second),
        in_turn(before, second),
    ensures
        first == second,
{
    assert forall|distance: nat| #[trigger]
        those_at(second, distance) == those_at(first, distance) by {
        assert(those_at(first, distance) == those_at(before, distance));
    }
    lemma_same_order(first, second);
}

/// Orders `walks` by their distance from home, nearest first, and leaves
/// walks that are equally far in the order in which they came.
pub fn rank(walks: &mut Vec<Walk>)
    ensures
        by_distance(views(final(walks)@)),
        in_turn(views(old(walks)@), views(final(walks)@)),
        final(walks)@.len() == old(walks)@.len(),
{
    let ghost before = views(walks@);
    let n: usize = walks.len();
    let mut i: usize = 0;
    proof {
        assert(views(walks@).take(0) == before.take(0));
    }
    while i < n
        invariant
            0 <= i <= n,
            walks.len() == n,
            before.len() == n,
            views(walks@).skip(i as int) == before.skip(i as int),
            by_distance(views(walks@).take(i as int)),
            in_turn(before.take(i as int), views(walks@).take(i as int)),
        decreases n - i,
    {
        let ghost ranked = views(walks@).take(i as int);
        let ghost entered = views(walks@);
        let walk: Walk = walks.remove(i);
        proof {
            assert(walk@ == before.skip(i as int)[0]);
            assert(views(walks@) == entered.remove(i as int));
            assert(views(walks@).take(i as int) == ranked);
            assert forall|k: int| 0 <= k < n - 1 - i implies #[trigger] views(walks@).skip(
                i as int,
            )[k] == before.skip(i + 1)[k] by {
                assert(entered.skip(i as int)[k + 1] == before.skip(i as int)[k + 1]);
            }
            assert(views(walks@).skip(i as int) == before.skip(i + 1));
        }
        let mut j: usize = i;
        while j > 0 && walks[j - 1].distance > walk.distance
            invariant
                0 <= j <= i < n,
                walks.len() == n - 1,
                ranked == views(walks@).take(i as int),
                views(walks@).skip(i as int) == before.skip(i + 1),
                forall|k: int| j <= k < i ==> (#[trigger] ranked[k]).distance > walk@.distance,
            decreases j,
        {
            j = j - 1;
        }
        let ghost removed = views(walks@);
        proof {
            assert forall|k: int| 0 <= k < j implies (#[trigger] ranked[k]).distance
                <= walk@.distance by {
                assert(ranked[k].distance <= ranked[j - 1].distance);
            }
            lemma_place(ranked, walk@, j as int);
        }
        walks.insert(j, walk);
        proof {
            assert(views(walks@) == removed.insert(j as int, walk@));
            assert(views(walks@).take(i + 1) == ranked.insert(j as int, walk@));
            assert(views(walks@).skip(i + 1) == removed.skip(i as int));
            assert(before.take(i + 1) == before.take(i as int).push(walk@));
            assert forall|distance: nat| #[trigger]
                those_at(views(walks@).take(i + 1), distance) == those_at(
                    before.take(i + 1),
                    distance,
                ) by {
                lemma_those_at_push(ranked, walk@, distance);
                lemma_those_at_push(before.take(i as int), walk@, distance);
                assert(those_at(ranked.insert(j as int, walk@), distance) == those_at(
                    ranked.push(walk@),
                    distance,
                ));
                assert(those_at(ranked, distance) == those_at(before.take(i as int), distance));
            }
        }
        i = i + 1;
    }
    proof {
        assert(views(walks@).take(n as int) == views(walks@));
        assert(before.take(n as int) == before);
    }
}

/// The walks of a map document, nearest to home first: every placemark
/// under `root` decoded, then ranked.
///
/// Fails as [`parse_fancy_free_walks_map`] does.
pub fn ranked_walks(root: &Node) -> (walks: Result<Vec<Walk>, DecodeError>)
    ensures
        match walks {
            Ok(walks) => decoded_all(placemarks(*root)) is Ok && by_distance(views(walks@))
                && in_turn(decoded_all(placemarks(*root))->Ok_0, views(walks@)),
            Err(e) => decoded_all(placemarks(*root)) == Err::<Seq<WalkView>, DecodeError>(e),
        },
        walks is Ok <==> all_decode(placemarks(*root)),
        walks matches Ok(walks) ==> walks.len() == placemarks(*root).len(),
        walks matches Err(e) ==> fails_first(placemarks(*root), e),
        walks matches Err(DecodeError::PatternRejected) ==> !pattern_accepted(TOKEN_PATTERN@),
{
    match parse_fancy_free_walks_map(root) {
        Ok(mut walks) => {
            rank(&mut walks);
            Ok(walks)
        },
        Err(e) => Err(e),
    }
}

} // verus!
