//! The walk record and the ways in which decoding one can fail.

use vstd::prelude::*;

verus! {

/// Why a map document could not be turned into walks.
#[derive(Debug, Clone, Copy, PartialEq, Eq, Structural)]
pub enum DecodeError {
    /// A placemark carries no name.
    MissingName,
    /// A length token in a description carries more than one fraction glyph,
    /// or is no run of digits followed by fraction glyphs at all.
    MalformedLength,
    /// A length token is well formed, but its value in hundredths of a mile
    /// does not fit in 64 bits.
    LengthOutOfRange,
    /// The regex engine does not take the token pattern.
    PatternRejected,
    /// A placemark marks a point whose distance from home could not be
    /// measured.
    DistanceUnknown,
}

/// One walk, as decoded from one placemark.
#[derive(Debug, Clone, PartialEq, Eq)]
pub struct Walk {
    pub name: String,
    pub description: String,
    /// Length of the walk, in hundredths of a mile.
    pub length: u64,
    /// Latitude of the start in decimal degrees, as binary64 bits.
    pub latitude: u64,
    /// Longitude of the start in decimal degrees, as binary64 bits.
    pub longitude: u64,
    /// Distance from home to the start, in tenths of a mile.
    pub distance: u64,
}

/// What a [`Walk`] holds, with its texts as sequences of characters.
pub struct WalkView {
    pub name: Seq<char>,
    pub description: Seq<char>,
    pub length: nat,
    pub latitude: u64,
    pub longitude: u64,
    pub distance: nat,
}

impl View for Walk {
    type V = WalkView;

    open spec fn view(&self) -> WalkView {
        WalkView {
            name: self.name@,
            description: self.description@,
            length: self.length as nat,
            latitude: self.latitude,
            longitude: self.longitude,
            distance: self.distance as nat,
        }
    }
}

/// What each of `walks` holds.
pub open spec fn views(walks: Seq<Walk>) -> Seq<WalkView> {
    walks.map_values(|walk: Walk| walk@)
}

impl Walk {
    /// Puts the six fields together, unchanged.
    pub fn new(
        name: String,
        description: String,
        length: u64,
        latitude: u64,
        longitude: u64,
        distance: u64,
    ) -> (walk: Walk)
        ensures
            walk.name == name,
            walk.description == description,
            walk.length == length,
            walk.latitude == latitude,
            walk.longitude == longitude,
            walk.distance == distance,
    {
        Walk { name, description, length, latitude, longitude, distance }
    }
}

} // verus!
