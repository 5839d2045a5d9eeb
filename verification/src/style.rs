//! The style of a document node, as far as layout reads it.

use vstd::prelude::*;
use crate::color::Color;
use crate::geometry::Au;

verus! {

/// How a node takes part in layout.
#[derive(Clone, Copy, Debug, PartialEq, Eq, Structural)]
pub enum Display {
    /// The node and everything below it get no box.
    Hidden,
    Block,
    Inline,
}

/// The values that the cascade has settled for one node.
#[derive(Clone, Copy, Debug, PartialEq, Eq, Structural)]
pub struct ComputedStyle {
    pub display: Display,
    pub background_color: Color,
    /// The thickness of the border, the same on all four sides.
    pub border_width: Au,
    pub border_color: Color,
    /// The width of the widest piece of the node's own content that cannot
    /// be broken.
    pub content_min_width: Au,
    /// The width that the node's own content takes when it is never broken.
    pub content_pref_width: Au,
    /// The height of one line of the node's own content.
    pub line_height: Au,
    /// Whether the node floats. The height of a floating box is assigned in
    /// document order, not with the other heights.
    pub float: bool,
}

impl ComputedStyle {
    /// The style of a block with no border, no background and no content of
    /// its own.
    pub fn initial() -> (s: ComputedStyle)
        ensures
            s == (ComputedStyle {
                display: Display::Block,
                background_color: Color { r: 0, g: 0, b: 0, a: 0 },
                border_width: Au(0),
                border_color: Color { r: 0, g: 0, b: 0, a: 255 },
                content_min_width: Au(0),
                content_pref_width: Au(0),
                line_height: Au(0),
                float: false,
            }),
    {
        ComputedStyle {
            display: Display::Block,
            background_color: Color { r: 0, g: 0, b: 0, a: 0 },
            border_width: Au(0),
            border_color: Color { r: 0, g: 0, b: 0, a: 255 },
            content_min_width: Au(0),
            content_pref_width: Au(0),
            line_height: Au(0),
            float: false,
        }
    }
}

} // verus!
