//! Walking routes drawn from a map document and ranked by how far they start
//! from home.
//!
//! A map document is a tree of nodes. Its placemarks are collected in document
//! order, each is decoded into a [`Walk`], and the walks are ordered by their
//! distance from home.
//!
//! The library computes on integers only: a walk's length is held in
//! hundredths of a mile, its distance in tenths of a mile, and a coordinate as
//! the bit pattern of its binary64 value, which is carried through unread.

pub mod decode;
pub mod distance;
pub mod document;
pub mod length;
pub mod rank;
pub mod record;

pub use decode::{decode, parse_fancy_free_walks_map};
pub use distance::to_tenths;
pub use document::{Geometry, Node, Placemark, Point};
pub use length::{description_length, longest_length, searched_length, token_length};
pub use rank::{rank, ranked_walks};
pub use record::{DecodeError, Walk, WalkView};
