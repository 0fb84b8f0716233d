//! Tree-art rendering of hierarchical data, with an incremental tree model
//! that keeps every item's prefix correct as items arrive out of order.
pub mod builder;
pub mod command;
pub mod compare;
pub mod config;
pub mod data;
pub mod export;
pub mod formats;
pub mod incremental;
pub mod iterator;
pub mod level;
pub mod merge;
pub mod path;
pub mod prefix;
pub mod renderer;
pub mod search;
pub mod sort;
pub mod stats;
pub mod style;
pub mod text;
pub mod transform;
pub mod traversal;
pub mod tree;
pub mod xml;

pub use builder::TreeBuilder;
pub use config::RenderConfig;
pub use incremental::IncrementalTree;
pub use iterator::{Line, TreeIteratorExt};
pub use level::LevelPath;
pub use prefix::{compute_prefix, compute_second_line_prefix};
pub use renderer::{render_to_string, render_to_string_with_config, write_tree, write_tree_with_config};
pub use stats::TreeStats;
pub use style::{StyleConfig, TreeStyle};
pub use tree::Tree;

