//! A verified core for a personal media collection: a folder/item hierarchy,
//! a tag vocabulary in which tags can imply other tags, and the queries that
//! turn a selection into an ordered, paginated listing.
use vstd::prelude::*;

pub mod forms;
pub mod hashing;
pub mod item;
pub mod item_tag;
pub mod listing;
pub mod seqs;
pub mod tag;
pub mod tag_tag;
pub mod text;

verus! {

/// The error taxonomy shared by the catalog and the item store.
///
/// Filesystem failures are the calling side's business: the store only
/// computes, and hands the caller the paths to move or remove.
#[derive(Clone, Copy, Debug, PartialEq, Eq, Structural)]
pub enum StoreError {
    /// An item or tag lookup missed.
    NotFound,
    /// A unique key (path, content hash, tag name) is already taken.
    Conflict,
    /// The input itself is malformed: an empty tag name, a self-dependency,
    /// or a parent reference that does not name a folder.
    Validation,
}

} // verus!
