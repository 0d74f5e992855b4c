//! Dependency edges of the tag vocabulary: an edge `(tag, dep)` means that
//! assigning `tag` to an item implies that `dep` must be assigned as well.
use vstd::prelude::*;

verus! {

/// One directed dependency edge between two tags, identified by their ids.
#[derive(Clone, Copy, Debug, PartialEq, Eq, Structural)]
pub struct TagTag {
    pub tag: i64,
    pub dep: i64,
}

} // verus!
