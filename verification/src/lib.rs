//! Directory inspection: a flat lister that packs names into columns of a
//! terminal, and a tree renderer that draws a directory hierarchy with
//! box-drawing connectors.
//!
//! Both work on plain values that describe what a directory holds. The
//! lister takes the children of one directory as `entry::RawEntry`s, puts
//! them in the order of their paths (`order`), classifies and filters them
//! (`entry`, `listing`) and lays them out (`columns`). The tree renderer
//! takes a `tree::TreeNode` and draws one line for each entry below it.
//! Every function returns its output as text.

pub mod columns;
pub mod config;
pub mod entry;
pub mod listing;
pub mod order;
pub mod terminal;
pub mod text;
pub mod tree;
