//! A layout engine for styled document trees.
//!
//! Given a document whose nodes carry their styles, the engine builds a tree
//! of boxes, spreads restyle damage over it, solves the widths, heights,
//! positions and overflow of the boxes, lists what to paint, and answers
//! questions about where things ended up. It does no input or output: the
//! layout task is handed one message at a time and answers with the actions
//! to carry out.
//!
//! - `geometry`, `color`, `style`, `incremental`: the values layout works
//!   with.
//! - `dom`, `dom_laws`: the document as layout sees it.
//! - `flow`, `traversal`, `traversal_laws`: the tree of boxes and the walks
//!   over it.
//! - `construct`, `damage`, `solve`: the passes of a layout run.
//! - `display_list`, `display_list_builder`, `paint_laws`, `query`: what to
//!   paint, and what can be asked about it.
//! - `task`: the layout task.

pub mod color;
pub mod construct;
pub mod damage;
pub mod display_list;
pub mod display_list_builder;
pub mod dom;
pub mod dom_laws;
pub mod flow;
pub mod geometry;
pub mod incremental;
pub mod paint_laws;
pub mod query;
pub mod solve;
pub mod style;
pub mod task;
pub mod traversal;
pub mod traversal_laws;
