//! An immediate-mode UI core: an arena of items linked into a tree, a
//! two-axis anchor layout solver, and a pointer/button state machine that
//! turns raw input into hot/active state and item notifications.
use vstd::prelude::*;

pub mod util;
pub mod geom;
pub mod iconsheet;
pub mod item;
pub mod context;
pub mod containers;

verus! {

/// The coarse interaction state of an item, as a renderer reads it.
#[allow(non_camel_case_types)]
#[derive(Clone, Copy, Debug, PartialEq, Eq, Structural)]
pub enum ItemState {
    /// Quiescent but usable: neither hovered nor pressed.
    COLD,
    /// The cursor hovers over the item.
    HOT,
    /// The item holds the pointer capture.
    ACTIVE,
    /// The item is administratively disabled.
    FROZEN,
}

} // verus!
