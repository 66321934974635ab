use vstd::prelude::*;
use crate::geom::{Vec2, Rect};

verus! {

/// An opaque caller-assigned tag, not read by the layout or the input logic.
pub type Tag = u64;

/// The tag that stands for "no tag".
pub const NO_TAG: u64 = 0xffff_ffff_ffff_ffff;

/// Layout anchor bits. On axis `d` the low anchor is bit `d` and the high
/// anchor is bit `d + 2`: both set means fill, neither means centre.
pub type LayoutFlags = u32;

/// Anchor to the left neighbour, or the left side of the parent.
pub const LEFT: u32 = 1;
/// Anchor to the top neighbour, or the top side of the parent.
pub const TOP: u32 = 2;
/// Anchor to the right neighbour, or the right side of the parent.
pub const RIGHT: u32 = 4;
/// Anchor to the bottom neighbour, or the bottom side of the parent.
pub const DOWN: u32 = 8;
/// Anchor to both horizontal sides.
pub const HFILL: u32 = 5;
/// Anchor to both vertical sides.
pub const VFILL: u32 = 10;
/// Centre horizontally, with the left margin as offset.
pub const HCENTER: u32 = 0;
/// Centre vertically, with the top margin as offset.
pub const VCENTER: u32 = 0;
/// Centre on both axes.
pub const CENTER: u32 = 0;
/// Anchor to all four sides.
pub const FILL: u32 = 15;

/// Event bits that an item's handler can ask for.
pub type EventFlags = u32;

/// Button 0 went down on the item.
pub const BUTTON0_DOWN: u32 = 1;
/// Button 0 went up while the item held the capture.
pub const BUTTON0_UP: u32 = 2;
/// Button 0 went up while the item held the capture and was under the cursor.
pub const BUTTON0_HOT_UP: u32 = 4;
/// Button 0 is held while the item holds the capture (sent every frame).
pub const BUTTON0_CAPTURE: u32 = 8;
/// The item received a new child.
pub const APPEND: u32 = 16;

/// Whether a flag set holds every bit of `event`.
pub open spec fn has_flags(flags: u32, event: u32) -> bool {
    flags & event == event
}

/// Whether the low anchor (left or top) is set on axis `dim`.
pub open spec fn anchored_low(flags: u32, dim: int) -> bool {
    (flags >> (dim as u32)) & 1 != 0
}

/// Whether the high anchor (right or bottom) is set on axis `dim`.
pub open spec fn anchored_high(flags: u32, dim: int) -> bool {
    (flags >> (dim as u32)) & 4 != 0
}

/// A handle to an item of a context: an index into its arena, or `-1` for
/// "no item".
#[derive(Clone, Copy, Debug, PartialEq, Eq, Structural)]
pub struct Item {
    pub itemid: i32,
}

impl Item {
    /// The handle with the given index.
    pub fn wrap(itemid: i32) -> (r: Item)
        ensures
            r.itemid == itemid,
    {
        Item { itemid }
    }

    /// The handle that stands for "no item".
    pub fn none() -> (r: Item)
        ensures
            r.itemid == -1,
    {
        Item::wrap(-1)
    }

    /// Whether this handle names an item at all.
    pub open spec fn is_some(self) -> bool {
        self.itemid != -1
    }

    /// Whether this handle names an item at all.
    pub fn valid(&self) -> (r: bool)
        ensures
            r == self.is_some(),
    {
        self.itemid != -1
    }

    /// Whether this handle is "no item".
    pub fn invalid(&self) -> (r: bool)
        ensures
            r == !self.is_some(),
    {
        !self.valid()
    }
}

/// The record of one item, owned by its context's arena.
pub struct ItemImp<Wgt, Hnd> {
    /// Opaque tag for the caller's own tracking.
    pub tag: Tag,
    /// The handler that notifications for this item go to.
    pub handler: Option<Hnd>,
    /// Number of children.
    pub numkids: i32,
    /// First child, or none.
    pub firstkid: Item,
    /// Last child, or none.
    pub lastkid: Item,
    /// Parent, or none.
    pub parent: Item,
    /// Ordinal of this item among its parent's children.
    pub kidid: i32,
    /// Next sibling, or none.
    pub nextitem: Item,
    /// Previous sibling, or none.
    pub previtem: Item,
    /// Anchor bits on both axes.
    pub layout_flags: LayoutFlags,
    /// Explicit size per axis; zero means "computed".
    pub size: Vec2,
    /// Per axis, whether the best-size pass already counted this item in a
    /// chain of its parent.
    pub sized: [bool; 2],
    /// Per axis, whether the position pass already placed this item.
    pub placed: [bool; 2],
    /// Margins: left, top, right, bottom.
    pub margins: [i32; 4],
    /// Neighbours this item anchors to: left, top, right, bottom.
    pub relto: [Item; 4],
    /// Per axis, the largest fixed demand over the children's chains.
    pub computed_size: Vec2,
    /// Resolved rectangle, relative to the parent.
    pub rect: Rect,
    /// Administrative disable: no hit-testing, no interaction.
    pub frozen: bool,
    /// The caller's payload.
    pub widget: Wgt,
    /// The events the handler wants.
    pub event_flags: EventFlags,
}

impl<Wgt, Hnd> ItemImp<Wgt, Hnd> {
    /// Whether this record is as `new` leaves it, but for its payload.
    pub open spec fn is_fresh(&self) -> bool {
        &&& self.tag == 0
        &&& self.handler.is_none()
        &&& self.numkids == 0
        &&& self.firstkid.itemid == -1
        &&& self.lastkid.itemid == -1
        &&& self.parent.itemid == -1
        &&& self.kidid == 0
        &&& self.nextitem.itemid == -1
        &&& self.previtem.itemid == -1
        &&& self.layout_flags == 0
        &&& self.size == Vec2 { x: 0, y: 0 }
        &&& self.sized@ == seq![false, false]
        &&& self.placed@ == seq![false, false]
        &&& self.margins@ == seq![0i32, 0, 0, 0]
        &&& (forall|k: int| 0 <= k < 4 ==> self.relto@[k].itemid == -1)
        &&& self.computed_size == Vec2 { x: 0, y: 0 }
        &&& self.rect == Rect { x: 0, y: 0, w: 0, h: 0 }
        &&& !self.frozen
        &&& self.event_flags == 0
    }

    /// A detached record holding `wgt`, with everything else zero or none.
    pub fn new(wgt: Wgt) -> (r: ItemImp<Wgt, Hnd>)
        ensures
            r.is_fresh(),
            r.widget == wgt,
    {
        let r = ItemImp {
            tag: 0,
            handler: None,
            numkids: 0,
            firstkid: Item::none(),
            lastkid: Item::none(),
            parent: Item::none(),
            kidid: 0,
            nextitem: Item::none(),
            previtem: Item::none(),
            layout_flags: 0,
            size: Vec2::zero(),
            sized: [false, false],
            placed: [false, false],
            margins: [0i32, 0, 0, 0],
            relto: [Item::none(), Item::none(), Item::none(), Item::none()],
            computed_size: Vec2::zero(),
            rect: Rect::zero(),
            frozen: false,
            widget: wgt,
            event_flags: 0,
        };
        assert(r.margins@ =~= seq![0i32, 0, 0, 0]);
        assert(r.sized@ =~= seq![false, false]);
        assert(r.placed@ =~= seq![false, false]);
        r
    }
}

} // verus!
