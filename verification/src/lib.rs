//! References between the instances of a Roblox tree, kept as paths that
//! survive on disk, and the filter that tells the echoes of our own writes
//! from the changes a user makes.

pub mod debouncer;
pub mod debouncer_laws;
pub mod dom;
pub mod dom_laws;
pub mod dom_paths;
pub mod dom_snapshot;
pub mod echo;
pub mod growth;
pub mod laws;
pub mod lineage;
pub mod link_laws;
pub mod locate;
pub mod location;
pub mod model;
pub mod path;
pub mod path_laws;
pub mod position;
pub mod property;
pub mod ref_path;
pub mod referent;
pub mod refs;
pub mod shape;
pub mod snapshot;
pub mod snapshot_laws;
pub mod text;
pub mod text_laws;
pub mod tree;
pub mod tree_laws;
