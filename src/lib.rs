//! An in-memory model of a directory tree: files hold their bytes, directories
//! hold uniquely named entries.

mod dir;
mod file;
mod names;

pub use dir::{
    add_to, distinct_names, lemma_duplicate_rejected, lemma_listing_rebuilds, lemma_map_of_len,
    lemma_sorted_distinct, map_of, sorted_names, Dir, DirError, Entry,
};
pub use file::File;
pub use names::{
    compare_names, lemma_name_lt_irreflexive, lemma_name_lt_transitive, lt_from,
    name_lt,
};
