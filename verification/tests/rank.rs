use kml_walks::{rank, ranked_walks, DecodeError, Geometry, Node, Placemark, Point, Walk};

fn walk(name: &str, distance: u64) -> Walk {
    Walk::new(name.to_string(), String::new(), 0, 0, 0, distance)
}

fn order(walks: &[Walk]) -> Vec<&str> {
    walks.iter().map(|walk| walk.name.as_str()).collect()
}

fn placemark(name: &str, from_home: u64) -> Node {
    Node::Placemark(Placemark {
        name: Some(name.to_string()),
        description: None,
        geometry: Some(Geometry::Point(Point { x: 0, y: 0, from_home: Some(from_home) })),
    })
}

#[test]
fn equally_far_walks_keep_their_order() {
    let mut walks = vec![walk("A", 50), walk("B", 20), walk("C", 20)];
    rank(&mut walks);
    assert_eq!(order(&walks), ["B", "C", "A"]);
}

#[test]
fn nearest_comes_first() {
    let mut walks = vec![walk("far", 900), walk("near", 3), walk("middle", 41)];
    rank(&mut walks);
    assert_eq!(order(&walks), ["near", "middle", "far"]);
    assert_eq!(walks[0].distance, 3);
    assert_eq!(walks[2].distance, 900);
}

#[test]
fn ranking_nothing_or_one_changes_nothing() {
    let mut none: Vec<Walk> = vec![];
    rank(&mut none);
    assert!(none.is_empty());
    let mut one = vec![walk("only", 7)];
    rank(&mut one);
    assert_eq!(one, vec![walk("only", 7)]);
}

#[test]
fn ranked_walks_stay_as_they_are() {
    let mut walks = vec![walk("a", 1), walk("b", 1), walk("c", 2), walk("d", 5)];
    let before = walks.clone();
    rank(&mut walks);
    assert_eq!(walks, before);
}

#[test]
fn reversed_walks_are_turned_round() {
    let mut walks = vec![walk("d", 5), walk("c", 4), walk("b", 3), walk("a", 2)];
    rank(&mut walks);
    assert_eq!(order(&walks), ["a", "b", "c", "d"]);
}

#[test]
fn ranking_keeps_every_walk_and_every_tie_in_turn() {
    let distances = [7u64, 3, 7, 0, 3, 9, 0, 7, 3, 1];
    let mut walks: Vec<Walk> = distances
        .iter()
        .enumerate()
        .map(|(i, distance)| walk(&format!("w{}", i), *distance))
        .collect();
    let before = walks.clone();
    rank(&mut walks);
    assert_eq!(walks.len(), before.len());
    for pair in walks.windows(2) {
        assert!(pair[0].distance <= pair[1].distance);
    }
    for distance in distances {
        let then: Vec<&Walk> = before.iter().filter(|walk| walk.distance == distance).collect();
        let now: Vec<&Walk> = walks.iter().filter(|walk| walk.distance == distance).collect();
        assert_eq!(now, then);
    }
    assert_eq!(order(&walks), ["w3", "w6", "w9", "w1", "w4", "w8", "w0", "w2", "w7", "w5"]);
}

#[test]
fn length_does_not_break_a_tie() {
    let mut walks = vec![
        Walk::new("long".to_string(), String::new(), 900, 0, 0, 20),
        Walk::new("short".to_string(), String::new(), 100, 0, 0, 20),
    ];
    rank(&mut walks);
    assert_eq!(order(&walks), ["long", "short"]);
}

#[test]
fn document_is_decoded_then_ranked() {
    let document = Node::KmlDocument(vec![
        placemark("five miles", 8_046_720),
        Node::Folder(vec![placemark("two miles", 3_218_688), placemark("also two", 3_218_688)]),
        Node::Style,
    ]);
    let walks = ranked_walks(&document).unwrap();
    assert_eq!(order(&walks), ["two miles", "also two", "five miles"]);
    assert_eq!(walks[0].distance, 20);
    assert_eq!(walks[2].distance, 50);
}

#[test]
fn walk_without_a_point_ranks_as_nearest() {
    let nowhere = Node::Placemark(Placemark {
        name: Some("nowhere".to_string()),
        description: None,
        geometry: None,
    });
    let document = Node::Folder(vec![placemark("near", 160_935), nowhere]);
    let walks = ranked_walks(&document).unwrap();
    assert_eq!(order(&walks), ["nowhere", "near"]);
    assert_eq!(walks[1].distance, 1);
}

#[test]
fn document_that_does_not_decode_is_not_ranked() {
    let nameless = Node::Placemark(Placemark { name: None, description: None, geometry: None });
    let document = Node::Folder(vec![placemark("fine", 5), nameless]);
    assert_eq!(ranked_walks(&document), Err(DecodeError::MissingName));
}
