//! A hierarchical task list, rendered as a bounded, ordered sequence of rows.
//!
//! The tree model stores nodes, structural child links and a secondary
//! "selection" (membership) relation; the flatten engine turns the displayed
//! tree into an ordered row list that never outgrows the viewport; the layout
//! engine positions each row's widgets and the connector lines between rows.

pub mod idmap;
pub mod node;
pub mod ftree;
pub mod paint;
pub mod datefmt;
pub mod editor;
pub mod actions;

pub use node::Session;
