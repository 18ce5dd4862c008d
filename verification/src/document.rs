//! The map document: a tree of nodes with placemarks at its leaves.

use vstd::prelude::*;

verus! {

/// A single position on the map.
#[derive(Debug, Clone, Copy, PartialEq, Eq)]
pub struct Point {
    /// The X ordinate in decimal degrees, as binary64 bits.
    pub x: u64,
    /// The Y ordinate in decimal degrees, as binary64 bits.
    pub y: u64,
    /// The great-circle distance from home to this position, in millimetres;
    /// `None` where measuring it failed.
    pub from_home: Option<u64>,
}

/// The shape that a placemark marks.
#[derive(Debug, Clone, Copy, PartialEq, Eq)]
pub enum Geometry {
    Point(Point),
    /// A line, a polygon, several shapes together, or any other shape.
    Other,
}

/// A named place of the document.
#[derive(Debug, Clone, PartialEq, Eq)]
pub struct Placemark {
    pub name: Option<String>,
    pub description: Option<String>,
    pub geometry: Option<Geometry>,
}

/// One node of the document.
#[derive(Debug, PartialEq, Eq)]
pub enum Node {
    /// The root of a document, with its children in order.
    KmlDocument(Vec<Node>),
    /// A document wrapper, with its children in order.
    Document(Vec<Node>),
    /// A folder, with its children in order.
    Folder(Vec<Node>),
    Placemark(Placemark),
    Style,
    StyleMap,
    /// An element that the document's reader did not interpret.
    Element,
    /// A node of any other kind.
    Other,
}

/// The placemarks under `node`, in document order: those of the children of
/// a document root, a document wrapper or a folder, child after child, and a
/// placemark itself. No other node holds any.
pub open spec fn placemarks(node: Node) -> Seq<Placemark>
    decreases node, 0nat,
{
    match node {
        Node::KmlDocument(children) => placemarks_among(children@),
        Node::Document(children) => placemarks_among(children@),
        Node::Folder(children) => placemarks_among(children@),
        Node::Placemark(placemark) => seq![placemark],
        _ => Seq::empty(),
    }
}

/// The placemarks under each of `nodes` in turn.
pub open spec fn placemarks_among(nodes: Seq<Node>) -> Seq<Placemark>
    decreases nodes, nodes.len(),
{
    if nodes.len() == 0 {
        Seq::empty()
    } else {
        placemarks_among(nodes.drop_last()) + placemarks(nodes.last())
    }
}

} // verus!
