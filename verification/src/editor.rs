//! The dialog editor's model: timelines of event blocks, and the graph of
//! conversations and choicers that they belong to.

pub mod graph;
pub mod link_history;
pub mod timeline;
