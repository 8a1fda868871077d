//! Fixed margins of a chart, in pixels.
//!
//! The plot area is inset from the left and top edges by the border, the
//! width of a number label and its height, and from the right and bottom
//! edges by the arrowhead that ends each axis.

use vstd::prelude::*;

verus! {

/// Width of the arrowhead at the end of an axis.
pub const W_ARROW: usize = 4;

/// Width of a number label.
pub const W_NUMBER: usize = 4;

/// Height of a number label.
pub const H_NUMBER: usize = 5;

/// Empty border around the chart.
pub const W_BORDER: usize = 1;

/// Half the height of an arrowhead.
pub const H_ARROW_HALF: usize = 3;

/// Margin before the plot area, on the left and at the top.
pub const LEFT_SHIFT: usize = W_BORDER + W_NUMBER + H_NUMBER;

/// Margin after the plot area, on the right and at the bottom.
pub const RIGHT_SHIFT: usize = W_ARROW;

/// Smallest width or height that leaves room for the margins.
pub const MIN_EXTENT: usize = 2 * H_NUMBER + 2 * W_NUMBER + W_ARROW + 2 * W_BORDER;

/// Pixels between the two margins of an extent.
pub open spec fn usable_extent(extent: nat) -> nat
    recommends
        extent >= MIN_EXTENT,
{
    (extent - LEFT_SHIFT - RIGHT_SHIFT) as nat
}

} // verus!
