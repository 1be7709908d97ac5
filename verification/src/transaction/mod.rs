//! Collect-then-commit transactions on a notebook.

pub mod apply;
pub mod apply_laws;
pub mod commit;
pub mod commit_laws;
pub mod content;
pub mod content_laws;
pub mod created;
pub mod created_bodies;
pub mod index;
pub mod index_laws;
pub mod lock;
pub mod marks;
pub mod materialize;
pub mod name_laws;
pub mod names;
pub mod plan;
pub mod plan_laws;
pub mod readback;
pub mod resolve;
pub mod resolve_laws;
pub mod restore;
pub mod retagged;
pub mod retagged_links;
pub mod rewrite;
pub mod tree;
pub mod tree_laws;
