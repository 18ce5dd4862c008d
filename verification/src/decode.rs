//! From a map document to walks.

use vstd::prelude::*;
use crate::distance::{tenths_of_a_mile, to_tenths};
use crate::document::{Geometry, Node, Placemark, placemarks, placemarks_among};
use crate::length::{
    TOKEN_PATTERN, described_length, description_length, lemma_rejected_by_engine, pattern_accepted,
};
use crate::record::{DecodeError, Walk, WalkView, views};

verus! {

/// The walk that a placemark stands for.
///
/// A placemark without a name stands for none. Its description is kept as it
/// is, empty where there is none, and gives the length. A point gives the
/// latitude from its Y ordinate, the longitude from its X ordinate and the
/// distance from home in tenths of a mile; without a point all three are
/// zero. What fails first decides: the name, then the length, then the
/// distance.
pub open spec fn decoded(placemark: Placemark) -> Result<WalkView, DecodeError> {
    match placemark.name {
        None => Err(DecodeError::MissingName),
        Some(name) => {
            let description = match placemark.description {
                Some(text) => text@,
                None => Seq::empty(),
            };
            let length = match placemark.description {
                Some(text) => described_length(text@),
                None => Ok(0),
            };
            match length {
                Err(e) => Err(e),
                Ok(length) => match placemark.geometry {
                    Some(Geometry::Point(point)) => match point.from_home {
                        None => Err(DecodeError::DistanceUnknown),
                        Some(millimetres) => Ok(
                            WalkView {
                                name: name@,
                                description,
                                length,
                                latitude: point.y,
                                longitude: point.x,
                                distance: tenths_of_a_mile(millimetres as nat),
                            },
                        ),
                    },
                    _ => Ok(
                        WalkView {
                            name: name@,
                            description,
                            length,
                            latitude: 0,
                            longitude: 0,
                            distance: 0,
                        },
                    ),
                },
            }
        },
    }
}

/// The walks that a run of placemarks stands for, in the same order; the
/// error of the first placemark that has one.
pub open spec fn decoded_all(placemarks: Seq<Placemark>) -> Result<Seq<WalkView>, DecodeError>
    decreases placemarks.len(),
{
    if placemarks.len() == 0 {
        Ok(Seq::empty())
    } else {
        match decoded_all(placemarks.drop_last()) {
            Err(e) => Err(e),
            Ok(walks) => match decoded(placemarks.last()) {
                Err(e) => Err(e),
                Ok(walk) => Ok(walks.push(walk)),
            },
        }
    }
}

/// Every one of `placemarks` decodes.
pub open spec fn all_decode(placemarks: Seq<Placemark>) -> bool {
    forall|i: int| 0 <= i < placemarks.len() ==> decoded(#[trigger] placemarks[i]) is Ok
}

/// One of `placemarks` fails with `error`, and all before it decode.
pub open spec fn fails_first(placemarks: Seq<Placemark>, error: DecodeError) -> bool {
    exists|i: int|
        0 <= i < placemarks.len() && decoded(#[trigger] placemarks[i]) == Err::<
            WalkView,
            DecodeError,
        >(error) && decoded_all(placemarks.take(i)) is Ok
}

/// Decodes one placemark into a walk.
///
/// Fails for want of a name; then, where there is a description, as reading
/// its length fails; then for a point whose distance from home is unknown.
/// Nothing else fails.
pub fn decode(placemark: &Placemark) -> (walk: Result<Walk, DecodeError>)
    ensures
        match walk {
            Ok(walk) => decoded(*placemark) == Ok::<WalkView, DecodeError>(walk@),
            Err(e) => decoded(*placemark) == Err::<WalkView, DecodeError>(e),
        },
        walk == Err::<Walk, DecodeError>(DecodeError::MissingName) <==> placemark.name is None,
        walk == Err::<Walk, DecodeError>(DecodeError::PatternRejected) <==> placemark.name is Some
            && placemark.description is Some && !pattern_accepted(TOKEN_PATTERN@),
        walk == Err::<Walk, DecodeError>(DecodeError::DistanceUnknown) <==> placemark.name is Some
            && (placemark.description matches Some(text) ==> described_length(text@) is Ok) && (
        placemark.geometry matches Some(Geometry::Point(point)) && point.from_home is None),
        walk is Ok <==> placemark.name is Some && (placemark.description matches Some(text)
            ==> described_length(text@) is Ok) && !(placemark.geometry matches Some(
            Geometry::Point(point),
        ) && point.from_home is None),
        placemark.description is None ==> (walk matches Ok(walk) ==> walk.description@.len() == 0
            && walk.length == 0),
        !(placemark.geometry matches Some(Geometry::Point(_))) ==> (walk matches Ok(walk)
            ==> walk.latitude == 0 && walk.longitude == 0 && walk.distance == 0),
{
    let name: String = match &placemark.name {
        Some(name) => name.clone(),
        None => {
            return Err(DecodeError::MissingName);
        },
    };
    let mut description: String = String::new();
    let mut length: u64 = 0;
    match &placemark.description {
        Some(text) => {
            description = text.clone();
            match description_length(text.as_str()) {
                Ok(hundredths) => {
                    length = hundredths;
                },
                Err(e) => {
                    return Err(e);
                },
            }
        },
        None => {},
    }
    let mut latitude: u64 = 0;
    let mut longitude: u64 = 0;
    let mut distance: u64 = 0;
    match &placemark.geometry {
        Some(Geometry::Point(point)) => {
            match point.from_home {
                Some(millimetres) => {
                    latitude = point.y;
                    longitude = point.x;
                    distance = to_tenths(millimetres);
                },
                None => {
                    return Err(DecodeError::DistanceUnknown);
                },
            }
        },
        _ => {},
    }
    Ok(Walk::new(name, description, length, latitude, longitude, distance))
}

/// A placemark fails with [`DecodeError::PatternRejected`] where it has a
/// name and a description and the regex engine does not take the token
/// pattern, and nowhere else.
pub proof fn lemma_decoded_rejected(placemark: Placemark)
    ensures
        decoded(placemark) == Err::<WalkView, DecodeError>(DecodeError::PatternRejected)
            <==> placemark.name is Some && placemark.description is Some && !pattern_accepted(
            TOKEN_PATTERN@,
        ),
{
    if placemark.description is Some {
        lemma_rejected_by_engine(placemark.description->0@);
    }
}

/// A run of placemarks decodes where every one of them does, and nowhere
/// else.
pub proof fn lemma_decoded_all_sound(placemarks: Seq<Placemark>)
    ensures
        decoded_all(placemarks) is Ok <==> all_decode(placemarks),
    decreases placemarks.len(),
{
    if all_decode(placemarks) {
        lemma_decoded_all_each(placemarks);
    }
    if placemarks.len() > 0 && decoded_all(placemarks) is Ok {
        let head = placemarks.drop_last();
        lemma_decoded_all_sound(head);
        assert forall|i: int| 0 <= i < placemarks.len() implies decoded(
            #[trigger] placemarks[i],
        ) is Ok by {
            if i < head.len() {
                assert(head[i] == placemarks[i]);
            }
        }
    }
}

/// Where decoding a run of placemarks fails, one of them fails so and all
/// before it decode.
pub proof fn lemma_decoded_all_error(placemarks: Seq<Placemark>)
    ensures
        decoded_all(placemarks) matches Err(e) ==> fails_first(placemarks, e),
    decreases placemarks.len(),
{
    if placemarks.len() > 0 {
        let head = placemarks.drop_last();
        lemma_decoded_all_error(head);
        match decoded_all(head) {
            Err(e) => {
                let i = choose|i: int|
                    0 <= i < head.len() && decoded(#[trigger] head[i]) == Err::<
                        WalkView,
                        DecodeError,
                    >(e) && decoded_all(head.take(i)) is Ok;
                assert(head[i] == placemarks[i]);
                assert(head.take(i) == placemarks.take(i));
            },
            Ok(_) => {
                let last = placemarks.len() - 1;
                assert(placemarks.take(last) == head);
                assert(placemarks[last] == placemarks.last());
            },
        }
    }
}

/// Decoding two runs of placemarks one after the other decodes the first,
/// then the second, and fails where the first of them fails.
pub proof fn lemma_decoded_all_concat(first: Seq<Placemark>, second: Seq<Placemark>)
    ensures
        decoded_all(first + second) == match decoded_all(first) {
            Err(e) => Err::<Seq<WalkView>, DecodeError>(e),
            Ok(walks) => match decoded_all(second) {
                Err(e) => Err(e),
                Ok(more) => Ok(walks + more),
            },
        },
    decreases second.len(),
{
    if second.len() == 0 {
        assert(first + second == first);
        if decoded_all(first) is Ok {
            let walks = decoded_all(first)->Ok_0;
            assert(walks + Seq::<WalkView>::empty() == walks);
        }
    } else {
        assert((first + second).drop_last() == first + second.drop_last());
        assert((first + second).last() == second.last());
        lemma_decoded_all_concat(first, second.drop_last());
        if decoded_all(first) is Ok && decoded_all(second.drop_last()) is Ok && decoded(
            second.last(),
        ) is Ok {
            let walks = decoded_all(first)->Ok_0;
            let more = decoded_all(second.drop_last())->Ok_0;
            let walk = decoded(second.last())->Ok_0;
            assert((walks + more).push(walk) == walks + more.push(walk));
        }
    }
}

/// Where every placemark decodes, there is one walk to each placemark, in
/// the order of the placemarks.
pub proof fn lemma_decoded_all_each(placemarks: Seq<Placemark>)
    requires
        forall|i: int| 0 <= i < placemarks.len() ==> decoded(#[trigger] placemarks[i]) is Ok,
    ensures
        decoded_all(placemarks) is Ok,
        decoded_all(placemarks)->Ok_0.len() == placemarks.len(),
        forall|i: int|
            0 <= i < placemarks.len() ==> decoded(#[trigger] placemarks[i]) == Ok::<
                WalkView,
                DecodeError,
            >(decoded_all(placemarks)->Ok_0[i]),
    decreases placemarks.len(),
{
    if placemarks.len() > 0 {
        let head = placemarks.drop_last();
        assert forall|i: int| 0 <= i < head.len() implies decoded(#[trigger] head[i]) is Ok by {
            assert(head[i] == placemarks[i]);
        }
        lemma_decoded_all_each(head);
        assert(decoded(placemarks[placemarks.len() - 1]) is Ok);
        assert forall|i: int| 0 <= i < placemarks.len() implies decoded(
            #[trigger] placemarks[i],
        ) == Ok::<WalkView, DecodeError>(decoded_all(placemarks)->Ok_0[i]) by {
            if i < head.len() {
                assert(head[i] == placemarks[i]);
            }
        }
    }
}

/// Where a placemark does not decode and all before it do, decoding the run
/// fails as that placemark does.
pub proof fn lemma_decoded_all_fails_first(placemarks: Seq<Placemark>, at: int)
    requires
        0 <= at < placemarks.len(),
        forall|i: int| 0 <= i < at ==> decoded(#[trigger] placemarks[i]) is Ok,
        decoded(placemarks[at]) is Err,
    ensures
        decoded_all(placemarks) == Err::<Seq<WalkView>, DecodeError>(
            decoded(placemarks[at])->Err_0,
        ),
    decreases placemarks.len(),
{
    let head = placemarks.drop_last();
    if at + 1 == placemarks.len() {
        assert forall|i: int| 0 <= i < head.len() implies decoded(#[trigger] head[i]) is Ok by {
            assert(head[i] == placemarks[i]);
        }
        lemma_decoded_all_each(head);
    } else {
        assert forall|i: int| 0 <= i < at implies decoded(#[trigger] head[i]) is Ok by {
            assert(head[i] == placemarks[i]);
        }
        assert(head[at] == placemarks[at]);
        lemma_decoded_all_fails_first(head, at);
    }
}

/// The placemarks among two runs of nodes are those among the first, then
/// those among the second.
pub proof fn lemma_placemarks_among_concat(first: Seq<Node>, second: Seq<Node>)
    ensures
        placemarks_among(first + second) == placemarks_among(first) + placemarks_among(second),
    decreases second.len(),
{
    if second.len() == 0 {
        assert(first + second == first);
        assert(placemarks_among(first) + Seq::<Placemark>::empty() == placemarks_among(first));
    } else {
        assert((first + second).drop_last() == first + second.drop_last());
        assert((first + second).last() == second.last());
        lemma_placemarks_among_concat(first, second.drop_last());
        assert((placemarks_among(first) + placemarks_among(second.drop_last())) + placemarks(
            second.last(),
        ) == placemarks_among(first) + (placemarks_among(second.drop_last()) + placemarks(
            second.last(),
        )));
    }
}

/// Collects the walks of a map document: every placemark under `element`,
/// in document order, decoded.
///
/// Fails as the first placemark that cannot be decoded does, and for no
/// other reason.
pub fn parse_fancy_free_walks_map(element: &Node) -> (walks: Result<Vec<Walk>, DecodeError>)
    ensures
        match walks {
            Ok(walks) => decoded_all(placemarks(*element)) == Ok::<Seq<WalkView>, DecodeError>(
                views(walks@),
            ),
            Err(e) => decoded_all(placemarks(*element)) == Err::<Seq<WalkView>, DecodeError>(e),
        },
        walks is Ok <==> all_decode(placemarks(*element)),
        walks matches Ok(walks) ==> walks.len() == placemarks(*element).len(),
        walks matches Err(e) ==> fails_first(placemarks(*element), e),
        walks matches Err(DecodeError::PatternRejected) ==> !pattern_accepted(TOKEN_PATTERN@),
{
    let walks = walks_under(element);
    proof {
        lemma_decoded_all_sound(placemarks(*element));
        if all_decode(placemarks(*element)) {
            lemma_decoded_all_each(placemarks(*element));
        }
        lemma_decoded_all_error(placemarks(*element));
        if walks matches Err(DecodeError::PatternRejected) {
            let i = choose|i: int|
                0 <= i < placemarks(*element).len() && decoded(#[trigger] placemarks(*element)[i])
                    == Err::<WalkView, DecodeError>(DecodeError::PatternRejected) && decoded_all(
                    placemarks(*element).take(i),
                ) is Ok;
            lemma_decoded_rejected(placemarks(*element)[i]);
        }
    }
    walks
}

/// Collects the walks under `element` by going down the tree.
fn walks_under(element: &Node) -> (walks: Result<Vec<Walk>, DecodeError>)
    ensures
        match walks {
            Ok(walks) => decoded_all(placemarks(*element)) == Ok::<Seq<WalkView>, DecodeError>(
                views(walks@),
            ),
            Err(e) => decoded_all(placemarks(*element)) == Err::<Seq<WalkView>, DecodeError>(e),
        },
    decreases element, 0nat,
{
    match element {
        Node::KmlDocument(children) => walks_among(children),
        Node::Document(children) => walks_among(children),
        Node::Folder(children) => walks_among(children),
        Node::Placemark(placemark) => {
            proof {
                let alone = seq![*placemark];
                assert(alone.drop_last() == Seq::<Placemark>::empty());
                assert(decoded_all(alone.drop_last()) == Ok::<Seq<WalkView>, DecodeError>(
                    Seq::empty(),
                ));
                assert(alone.last() == *placemark);
            }
            match decode(placemark) {
                Ok(walk) => {
                    let mut walks: Vec<Walk> = Vec::new();
                    walks.push(walk);
                    proof {
                        assert(views(walks@) == Seq::<WalkView>::empty().push(walk@));
                    }
                    Ok(walks)
                },
                Err(e) => Err(e),
            }
        },
        _ => {
            let walks: Vec<Walk> = Vec::new();
            proof {
                assert(views(walks@) == Seq::<WalkView>::empty());
            }
            Ok(walks)
        },
    }
}

/// Collects the walks under each of `children` in turn.
fn walks_among(children: &Vec<Node>) -> (walks: Result<Vec<Walk>, DecodeError>)
    ensures
        match walks {
            Ok(walks) => decoded_all(placemarks_among(children@)) == Ok::<
                Seq<WalkView>,
                DecodeError,
            >(views(walks@)),
            Err(e) => decoded_all(placemarks_among(children@)) == Err::<Seq<WalkView>, DecodeError>(
                e,
            ),
        },
    decreases children, 1nat,
{
    let mut walks: Vec<Walk> = Vec::new();
    let mut i: usize = 0;
    proof {
        assert(views(walks@) == Seq::<WalkView>::empty());
    }
    while i < children.len()
        invariant
            0 <= i <= children.len(),
            decoded_all(placemarks_among(children@.take(i as int))) == Ok::<
                Seq<WalkView>,
                DecodeError,
            >(views(walks@)),
        decreases children.len() - i,
    {
        let ghost before = views(walks@);
        proof {
            let seen = children@.take(i + 1);
            assert(seen.drop_last() == children@.take(i as int));
            assert(seen.last() == children@[i as int]);
            lemma_decoded_all_concat(
                placemarks_among(children@.take(i as int)),
                placemarks(children@[i as int]),
            );
        }
        match walks_under(&children[i]) {
            Ok(mut found) => {
                let ghost more = views(found@);
                walks.append(&mut found);
                proof {
                    assert(views(walks@) == before + more);
                }
            },
            Err(e) => {
                proof {
                    let seen = children@.take(i + 1);
                    let rest = children@.skip(i + 1);
                    assert(seen + rest == children@);
                    lemma_placemarks_among_concat(seen, rest);
                    lemma_decoded_all_concat(placemarks_among(seen), placemarks_among(rest));
                }
                return Err(e);
            },
        }
        i = i + 1;
    }
    proof {
        assert(children@.take(i as int) == children@);
    }
    Ok(walks)
}

} // verus!
