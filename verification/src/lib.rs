//! A small library for keeping an ordered selection of filesystem paths.
//!
//! The heart of the library is a pure path-normalization algorithm that
//! turns an arbitrary path string (absolute, relative, `~`-prefixed,
//! with `.`/`..` segments or repeated separators) into a canonical
//! absolute string, without touching the filesystem.

use vstd::prelude::*;

mod norm;
mod segments;
mod store;

pub use norm::lemma_normalize_idempotent;
pub use norm::norm_rel;
pub use norm::normalize;
pub use norm::reduce;
pub use norm::seg_normal;
pub use norm::spec_normalize;
pub use norm::tilde_first;
pub use segments::join_with;
pub use segments::split_on;
pub use segments::views_of;
pub use store::dedup_first;
pub use store::keep_nonempty;
pub use store::lemma_dedup_first_contains;
pub use store::lemma_dedup_first_distinct;
pub use store::normalize_batch;
pub use store::norms_match;
pub use store::parse_items;
pub use store::remove_all;
pub use store::render_items;
pub use store::spec_store_path;
pub use store::SelectError;
pub use store::Selection;

verus! {

} // verus!
