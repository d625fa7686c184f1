//! A map from key to value in which every entry carries a tag, kept beside an
//! ordered index from tag to key, so that the entry of the least tag can be
//! found and removed.

pub mod invariants;
pub mod laws;
pub mod model;
pub mod order;
mod ordered_index;
pub mod tag_map;

pub use crate::model::{Call, TagMapView};
pub use crate::tag_map::TagMap;
