//! Builds an ordered prefix trie from slash-delimited path strings and renders
//! it as a connected tree of box-drawing glyphs, after glob-or-substring
//! pattern filtering and an optional reordering of siblings.

pub mod color;
pub mod config;
pub mod matcher;
pub mod paths;
pub mod render;
pub mod sort;
pub mod tree;
pub mod trie;

pub use tree::TreeDepth;
pub use tree::TreeParams;
pub use tree::TreePart;
pub use tree::TreeTrunk;
pub use trie::TreeNode;
pub use render::TreeRow;
pub use color::ColorScheme;
pub use config::Config;
pub use config::FileList;
pub use matcher::PathMatcher;
pub use sort::SortOrder;
pub use matcher::match_one;
pub use paths::normalize_path;
pub use paths::split_path;
pub use render::prefix_string;
pub use render::render_tree;
