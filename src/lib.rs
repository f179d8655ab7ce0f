//! Containers whose stored values keep their place for as long as the
//! container lives.
//!
//! Every value is boxed in a cell of its own, and the cell is never moved,
//! replaced or dropped before the container is. A cell is named by a handle,
//! its position in the container's arena, which later insertions never change.
mod list;
mod map;

pub use list::{lemma_exact_clone_same_list, lemma_list_stability, PinnedList};
pub use map::{
    increasing, lemma_exact_clone_same_contents, lemma_get_or_insert_once, lemma_insert_all_keeps_cells,
    lemma_insert_all_keeps_handle, lemma_key_order_unique, lemma_shadow_retention, lemma_stability,
    lemma_strict_rejects, Iter, Keys, MapModel, PinnedMap, Values,
};

