//! A prefix index for type-ahead search, kept as chains of a content-addressed graph.

pub mod order;
pub mod graph;
pub mod codec;
pub mod search;
pub mod prefix_index;
pub mod validate;
pub mod utils;
pub mod laws;
pub mod demo;

pub use codec::{make_cashtag_index_text, make_hashtag_index_text, shard_path};
pub use graph::Graph;
pub use prefix_index::{IndexError, PrefixIndex, ScopedLinkType};
pub use utils::{get_children, get_children_paths, missing_chains, path_to_string};
pub use validate::{
    CreateLink, DeleteLink, ValidateCallbackResult, validate_create_link_prefix_index,
    validate_delete_link_prefix_index,
};
