//! The UI context: the item arena, the hierarchy over it, per-item
//! configuration, and the raw input state.
use vstd::prelude::*;
use crate::geom::{Vec2, Rect};
use crate::item::{
    Item, ItemImp, Tag, LayoutFlags, EventFlags, NO_TAG, APPEND, has_flags,
};

pub mod input;
pub mod solver;
pub mod laws;

verus! {

/// Whether the context is tracking a press.
#[derive(Clone, Copy, Debug, PartialEq, Eq, Structural)]
pub enum MouseCapture {
    /// No button is held on an item.
    Idle,
    /// Button 0 went down and the active item holds the capture.
    Capturing,
}

/// One event queued for an item's handler.
#[derive(Clone, Copy, Debug, PartialEq, Eq, Structural)]
pub struct Notification {
    pub item: Item,
    pub event: EventFlags,
}

/// Owns every item of one UI instance, the links between them, and the
/// input state. `Item` handles index into it.
///
/// `Wgt` is the per-item payload; `Hnd` identifies a handler. Notifications
/// are queued in the order they fire; the embedding code takes them with
/// `take_notifications` and runs the handlers.
pub struct Context<Wgt, Hnd> {
    pub(crate) buttons: u64,
    pub(crate) last_buttons: u64,
    pub(crate) start_cursor: Vec2,
    pub(crate) last_cursor: Vec2,
    pub(crate) cursor: Vec2,
    pub(crate) hot_tag: Tag,
    pub(crate) active_tag: Tag,
    pub(crate) hot_item: Item,
    pub(crate) active_item: Item,
    pub(crate) hot_rect: Rect,
    pub(crate) active_rect: Rect,
    pub(crate) capture: MouseCapture,
    pub(crate) items: Vec<ItemImp<Wgt, Hnd>>,
    /// The children of each item, in sibling order.
    pub(crate) kids: Ghost<Seq<Seq<int>>>,
    pub(crate) notifications: Vec<Notification>,
}

/// The hierarchy facts about item `i` of an arena.
pub open spec fn node_ok<Wgt, Hnd>(items: Seq<ItemImp<Wgt, Hnd>>, kids: Seq<Seq<int>>, i: int) -> bool {
    let r = items[i];
    let ks = kids[i];
    &&& r.numkids as int == ks.len()
    &&& r.firstkid.itemid == (if ks.len() > 0 { ks[0] } else { -1 })
    &&& r.lastkid.itemid == (if ks.len() > 0 { ks[ks.len() - 1] } else { -1 })
    &&& forall|k: int|
        0 <= k < ks.len() ==> i < #[trigger] ks[k] < items.len() && items[ks[k]].parent.itemid == i
            && items[ks[k]].kidid == k
    &&& if r.parent.itemid == -1 {
        r.previtem.itemid == -1 && r.nextitem.itemid == -1
    } else {
        let p = r.parent.itemid as int;
        let sib = kids[p];
        &&& 0 <= p < i
        &&& 0 <= r.kidid < sib.len()
        &&& sib[r.kidid as int] == i
        &&& r.previtem.itemid == (if r.kidid > 0 { sib[r.kidid - 1] } else { -1 })
        &&& r.nextitem.itemid == (if r.kidid + 1 < sib.len() { sib[r.kidid + 1] } else { -1 })
    }
    &&& forall|k: int| 0 <= k < 4 ==> -1 <= (#[trigger] r.relto@[k]).itemid < items.len()
}

/// Whether the links of an arena form a forest in which every parent
/// precedes its children, and agree with the child lists `kids`.
pub open spec fn tree_ok<Wgt, Hnd>(items: Seq<ItemImp<Wgt, Hnd>>, kids: Seq<Seq<int>>) -> bool {
    &&& kids.len() == items.len()
    &&& items.len() < i32::MAX
    &&& forall|i: int| 0 <= i < items.len() ==> #[trigger] node_ok(items, kids, i)
}

/// Whether two records agree on every field that the hierarchy reads.
pub open spec fn same_links<Wgt, Hnd>(a: ItemImp<Wgt, Hnd>, b: ItemImp<Wgt, Hnd>) -> bool {
    &&& a.numkids == b.numkids
    &&& a.firstkid == b.firstkid
    &&& a.lastkid == b.lastkid
    &&& a.parent == b.parent
    &&& a.kidid == b.kidid
    &&& a.nextitem == b.nextitem
    &&& a.previtem == b.previtem
    &&& a.relto@ == b.relto@
}

/// Whether the explicit sizes of a record are not negative.
pub open spec fn sizes_ok<Wgt, Hnd>(r: ItemImp<Wgt, Hnd>) -> bool {
    r.size.x >= 0 && r.size.y >= 0
}

/// Replacing one record by one with the same links keeps the hierarchy intact.
pub proof fn lemma_update_keeps_tree<Wgt, Hnd>(
    a: Seq<ItemImp<Wgt, Hnd>>,
    kids: Seq<Seq<int>>,
    i: int,
    r: ItemImp<Wgt, Hnd>,
)
    requires
        tree_ok(a, kids),
        0 <= i < a.len(),
        same_links(a[i], r),
    ensures
        tree_ok(a.update(i, r), kids),
{
    let b = a.update(i, r);
    assert forall|j: int| 0 <= j < a.len() implies same_links(#[trigger] a[j], b[j]) by {}
    lemma_tree_ok_same_links(a, b, kids);
}

/// Changing fields that the hierarchy does not read keeps it intact.
pub proof fn lemma_tree_ok_same_links<Wgt, Hnd>(
    a: Seq<ItemImp<Wgt, Hnd>>,
    b: Seq<ItemImp<Wgt, Hnd>>,
    kids: Seq<Seq<int>>,
)
    requires
        tree_ok(a, kids),
        a.len() == b.len(),
        forall|i: int| 0 <= i < a.len() ==> same_links(#[trigger] a[i], b[i]),
    ensures
        tree_ok(b, kids),
{
    assert forall|i: int| 0 <= i < b.len() implies #[trigger] node_ok(b, kids, i) by {
        assert(node_ok(a, kids, i));
        assert(same_links(a[i], b[i]));
        let ks = kids[i];
        assert forall|k: int| 0 <= k < ks.len() implies i < #[trigger] ks[k] < b.len()
            && b[ks[k]].parent.itemid == i && b[ks[k]].kidid == k by {
            assert(same_links(a[ks[k]], b[ks[k]]));
        }
        assert forall|k: int| 0 <= k < 4 implies -1 <= (#[trigger] b[i].relto@[k]).itemid < b.len() by {
            assert(a[i].relto@[k] == b[i].relto@[k]);
        }
    }
}

impl<Wgt, Hnd> Context<Wgt, Hnd> {
    /// The records of the arena, in handle order.
    pub open(crate) spec fn records(&self) -> Seq<ItemImp<Wgt, Hnd>> {
        self.items@
    }

    /// The number of items in the arena.
    pub open spec fn count(&self) -> int {
        self.records().len() as int
    }

    /// Whether `it` names an item of the arena.
    pub open spec fn has(&self, it: Item) -> bool {
        0 <= it.itemid < self.count()
    }

    /// The record of item `i`.
    pub open spec fn rec(&self, i: int) -> ItemImp<Wgt, Hnd> {
        self.records()[i]
    }

    /// The child lists of all items, in handle order.
    pub open(crate) spec fn kid_lists(&self) -> Seq<Seq<int>> {
        self.kids@
    }

    /// The children of item `i`, in sibling order.
    pub open spec fn children(&self, i: int) -> Seq<int> {
        self.kid_lists()[i]
    }

    /// The notifications queued and not yet taken, oldest first.
    pub open(crate) spec fn pending(&self) -> Seq<Notification> {
        self.notifications@
    }

    /// The item under the cursor, as the last `process` or `set_tag` left it.
    pub open(crate) spec fn hot(&self) -> Item {
        self.hot_item
    }

    /// The item holding the capture.
    pub open(crate) spec fn active(&self) -> Item {
        self.active_item
    }

    /// The capture state.
    pub open(crate) spec fn capture_state(&self) -> MouseCapture {
        self.capture
    }

    /// The button bits of this frame.
    pub open(crate) spec fn button_bits(&self) -> u64 {
        self.buttons
    }

    /// The button bits of the previous frame.
    pub open(crate) spec fn last_button_bits(&self) -> u64 {
        self.last_buttons
    }

    /// The cursor position of this frame.
    pub open(crate) spec fn cursor_pos(&self) -> Vec2 {
        self.cursor
    }

    /// The cursor position of the previous frame.
    pub open(crate) spec fn last_cursor_pos(&self) -> Vec2 {
        self.last_cursor
    }

    /// The cursor position where the current press started.
    pub open(crate) spec fn start_cursor_pos(&self) -> Vec2 {
        self.start_cursor
    }

    /// The tag of the hot item as of the last `process`.
    pub open(crate) spec fn hot_tag_value(&self) -> Tag {
        self.hot_tag
    }

    /// The tag of the active item as of the last `process`.
    pub open(crate) spec fn active_tag_value(&self) -> Tag {
        self.active_tag
    }

    /// The absolute rectangle of the active item, taken when it became active.
    pub open(crate) spec fn active_rect_value(&self) -> Rect {
        self.active_rect
    }

    /// Whether item `j` is `i` or lies below it.
    pub open spec fn is_desc(&self, j: int, i: int) -> bool
        decreases j,
    {
        if j == i {
            true
        } else if 0 <= j < self.count() && 0 <= self.rec(j).parent.itemid < j {
            self.is_desc(self.rec(j).parent.itemid as int, i)
        } else {
            false
        }
    }

    /// The context's invariant: the hierarchy is a forest whose links agree
    /// with the child lists, and every stored handle is in the arena.
    pub open(crate) spec fn wf(&self) -> bool {
        &&& tree_ok(self.items@, self.kids@)
        &&& forall|i: int| 0 <= i < self.items@.len() ==> sizes_ok(#[trigger] self.items@[i])
        &&& self.hot_item.itemid == -1 || self.has(self.hot_item)
        &&& self.active_item.itemid == -1 || self.has(self.active_item)
    }

    /// Whether item `i` wants `event` and has a handler to receive it.
    pub open spec fn wants(&self, i: int, event: EventFlags) -> bool {
        has_flags(self.rec(i).event_flags, event) && self.rec(i).handler.is_some()
    }

    /// Reading the invariant: what it says of the hierarchy.
    pub proof fn lemma_wf_tree(&self)
        requires
            self.wf(),
        ensures
            tree_ok(self.records(), self.kid_lists()),
            forall|i: int| 0 <= i < self.count() ==> sizes_ok(#[trigger] self.rec(i)),
            self.hot().itemid == -1 || self.has(self.hot()),
            self.active().itemid == -1 || self.has(self.active()),
    {
    }

    /// An empty context: no items, no buttons down, the cursor at the origin.
    pub fn create_context() -> (r: Self)
        ensures
            r.wf(),
            r.count() == 0,
            r.pending().len() == 0,
            r.hot().itemid == -1,
            r.active().itemid == -1,
            r.capture_state() == MouseCapture::Idle,
            r.button_bits() == 0,
            r.last_button_bits() == 0,
            r.cursor_pos() == (Vec2 { x: 0, y: 0 }),
            r.start_cursor_pos() == (Vec2 { x: 0, y: 0 }),
            r.last_cursor_pos() == (Vec2 { x: 0, y: 0 }),
            r.hot_tag_value() == NO_TAG,
            r.active_tag_value() == NO_TAG,
    {
        Context {
            buttons: 0,
            last_buttons: 0,
            start_cursor: Vec2::zero(),
            last_cursor: Vec2::zero(),
            cursor: Vec2::zero(),
            hot_tag: NO_TAG,
            active_tag: NO_TAG,
            hot_item: Item::none(),
            active_item: Item::none(),
            hot_rect: Rect::zero(),
            active_rect: Rect::zero(),
            capture: MouseCapture::Idle,
            items: Vec::new(),
            kids: Ghost(Seq::empty()),
            notifications: Vec::new(),
        }
    }

    /// Sets or clears the bit of a button for this frame.
    pub fn set_button(&mut self, button: u64, enabled: bool)
        requires
            button < 64,
        ensures
            final(self).button_bits() == (if enabled {
                old(self).button_bits() | (1u64 << button)
            } else {
                old(self).button_bits() & !(1u64 << button)
            }),
            final(self).wf() == old(self).wf(),
            final(self).records() == old(self).records(),
            final(self).children_unchanged(old(self)),
            final(self).same_input_but(old(self), true, false),
            final(self).pending() == old(self).pending(),
    {
        let mask: u64 = 1u64 << button;
        self.buttons = if enabled { self.buttons | mask } else { self.buttons & !mask };
    }

    /// Whether a button was down in the previous frame.
    pub fn get_last_button(&self, button: u64) -> (r: bool)
        requires
            button < 64,
        ensures
            r == (self.last_button_bits() & (1u64 << button) != 0),
    {
        self.last_buttons & (1u64 << button) != 0
    }

    /// Whether a button is down in this frame.
    pub fn get_button(&self, button: u64) -> (r: bool)
        requires
            button < 64,
        ensures
            r == (self.button_bits() & (1u64 << button) != 0),
    {
        self.buttons & (1u64 << button) != 0
    }

    /// Whether a button went down between the previous frame and this one.
    pub fn button_pressed(&self, button: u64) -> (r: bool)
        requires
            button < 64,
        ensures
            r == (self.last_button_bits() & (1u64 << button) == 0 && self.button_bits() & (1u64
                << button) != 0),
    {
        !self.get_last_button(button) && self.get_button(button)
    }

    /// Whether a button went up between the previous frame and this one.
    pub fn button_released(&self, button: u64) -> (r: bool)
        requires
            button < 64,
        ensures
            r == (self.last_button_bits() & (1u64 << button) != 0 && self.button_bits() & (1u64
                << button) == 0),
    {
        self.get_last_button(button) && !self.get_button(button)
    }

    /// Moves the cursor for this frame.
    pub fn set_cursor(&mut self, x: i32, y: i32)
        ensures
            final(self).cursor_pos() == (Vec2 { x, y }),
            final(self).wf() == old(self).wf(),
            final(self).records() == old(self).records(),
            final(self).children_unchanged(old(self)),
            final(self).same_input_but(old(self), false, true),
            final(self).pending() == old(self).pending(),
    {
        self.cursor.x = x;
        self.cursor.y = y;
    }

    /// The cursor position of this frame.
    pub fn get_cursor(&self) -> (r: Vec2)
        ensures
            r == self.cursor_pos(),
    {
        self.cursor
    }

    /// Where the cursor was when the current press started.
    pub fn get_cursor_start(&self) -> (r: Vec2)
        ensures
            r == self.start_cursor_pos(),
    {
        self.start_cursor
    }

    /// How far the cursor moved since the previous frame.
    pub fn get_cursor_delta(&self) -> (r: Vec2)
        requires
            i32::MIN <= self.cursor_pos().x - self.last_cursor_pos().x <= i32::MAX,
            i32::MIN <= self.cursor_pos().y - self.last_cursor_pos().y <= i32::MAX,
        ensures
            r.x == self.cursor_pos().x - self.last_cursor_pos().x,
            r.y == self.cursor_pos().y - self.last_cursor_pos().y,
    {
        Vec2 { x: self.cursor.x - self.last_cursor.x, y: self.cursor.y - self.last_cursor.y }
    }

    /// How far the cursor moved since the current press started.
    pub fn get_cursor_start_delta(&self) -> (r: Vec2)
        requires
            i32::MIN <= self.cursor_pos().x - self.start_cursor_pos().x <= i32::MAX,
            i32::MIN <= self.cursor_pos().y - self.start_cursor_pos().y <= i32::MAX,
        ensures
            r.x == self.cursor_pos().x - self.start_cursor_pos().x,
            r.y == self.cursor_pos().y - self.start_cursor_pos().y,
    {
        Vec2 { x: self.cursor.x - self.start_cursor.x, y: self.cursor.y - self.start_cursor.y }
    }

    /// The root item (the first one created), or none in an empty context.
    pub fn root(&self) -> (r: Item)
        ensures
            r.itemid == (if self.count() == 0 { -1 } else { 0 }),
    {
        if self.items.len() == 0 {
            Item::none()
        } else {
            Item::wrap(0)
        }
    }

    /// The number of items in the arena.
    pub fn len(&self) -> (r: usize)
        ensures
            r == self.count(),
    {
        self.items.len()
    }

    /// Discards every item and forgets the hot and active items. Every
    /// handle taken before is stale afterwards.
    pub fn clear(&mut self)
        requires
            old(self).wf(),
        ensures
            final(self).wf(),
            final(self).count() == 0,
            final(self).hot().itemid == -1,
            final(self).active().itemid == -1,
            final(self).same_input_but_items(old(self)),
            final(self).pending() == old(self).pending(),
    {
        self.items.clear();
        self.kids = Ghost(Seq::empty());
        self.hot_item = Item::none();
        self.active_item = Item::none();
    }

    /// Creates a detached item holding `wgt`; it still has to be appended
    /// to a parent to take part in layout and input.
    pub fn item(&mut self, wgt: Wgt) -> (r: Item)
        requires
            old(self).wf(),
            old(self).count() + 1 < i32::MAX,
        ensures
            final(self).wf(),
            r.itemid == old(self).count(),
            final(self).count() == old(self).count() + 1,
            forall|i: int| 0 <= i < old(self).count() ==> final(self).rec(i) == old(self).rec(i),
            final(self).rec(r.itemid as int).is_fresh(),
            final(self).rec(r.itemid as int).widget == wgt,
            forall|i: int| 0 <= i < old(self).count() ==> final(self).children(i) == old(self).children(i),
            final(self).children(r.itemid as int).len() == 0,
            final(self).same_input(old(self)),
            final(self).pending() == old(self).pending(),
    {
        let idx = self.items.len();
        let it = Item::wrap(idx as i32);
        let rec = ItemImp::new(wgt);
        let ghost old_items = self.items@;
        let ghost old_kids = self.kids@;
        self.items.push(rec);
        self.kids = Ghost(self.kids@.push(Seq::empty()));
        proof {
            let items = self.items@;
            let kids = self.kids@;
            assert forall|i: int| 0 <= i < items.len() implies #[trigger] node_ok(items, kids, i) by {
                if i < idx {
                    assert(node_ok(old_items, old_kids, i));
                    assert(items[i] == old_items[i]);
                    assert(kids[i] == old_kids[i]);
                    let ks = kids[i];
                    assert forall|k: int| 0 <= k < ks.len() implies i < #[trigger] ks[k] < items.len()
                        && items[ks[k]].parent.itemid == i && items[ks[k]].kidid == k by {
                        assert(ks[k] < old_items.len());
                    }
                    if items[i].parent.itemid != -1 {
                        let p = items[i].parent.itemid as int;
                        assert(kids[p] == old_kids[p]);
                    }
                } else {
                    assert(items[i].relto@[0].itemid == -1);
                }
            }
        }
        it
    }

    /// Queues `event` for `item`'s handler, if the item has a handler and
    /// asked for that event. The handler does not run here: the embedding
    /// code takes the queue with `take_notifications` and runs each handler,
    /// which may then change the context.
    pub fn notify_item(&mut self, item: Item, event: EventFlags)
        requires
            old(self).has(item),
        ensures
            final(self).pending() == (if old(self).wants(item.itemid as int, event) {
                old(self).pending().push(Notification { item, event })
            } else {
                old(self).pending()
            }),
            final(self).records() == old(self).records(),
            final(self).wf() == old(self).wf(),
            final(self).children_unchanged(old(self)),
            final(self).same_input(old(self)),
    {
        let i = item.itemid as usize;
        if self.items[i].event_flags & event == event && self.items[i].handler.is_some() {
            self.notifications.push(Notification { item, event });
        }
    }

    /// Whether the child lists of `self` and `other` agree.
    pub open(crate) spec fn children_unchanged(&self, other: &Self) -> bool {
        self.kids@ == other.kids@
    }

    /// Whether `self` and `other` agree on the input state.
    pub open(crate) spec fn same_input(&self, other: &Self) -> bool {
        &&& self.buttons == other.buttons
        &&& self.last_buttons == other.last_buttons
        &&& self.cursor == other.cursor
        &&& self.last_cursor == other.last_cursor
        &&& self.start_cursor == other.start_cursor
        &&& self.hot_item == other.hot_item
        &&& self.active_item == other.active_item
        &&& self.hot_tag == other.hot_tag
        &&& self.active_tag == other.active_tag
        &&& self.hot_rect == other.hot_rect
        &&& self.active_rect == other.active_rect
        &&& self.capture == other.capture
    }

    /// Whether `self` and `other` agree on the input state, but for this
    /// frame's buttons when `buttons` and this frame's cursor when `cursor`.
    pub open(crate) spec fn same_input_but(&self, other: &Self, buttons: bool, cursor: bool) -> bool {
        &&& buttons || self.buttons == other.buttons
        &&& cursor || self.cursor == other.cursor
        &&& self.last_buttons == other.last_buttons
        &&& self.last_cursor == other.last_cursor
        &&& self.start_cursor == other.start_cursor
        &&& self.hot_item == other.hot_item
        &&& self.active_item == other.active_item
        &&& self.hot_tag == other.hot_tag
        &&& self.active_tag == other.active_tag
        &&& self.hot_rect == other.hot_rect
        &&& self.active_rect == other.active_rect
        &&& self.capture == other.capture
    }

    /// Whether `self` and `other` agree on the input state but for which
    /// items are hot and active.
    pub open(crate) spec fn same_input_but_items(&self, other: &Self) -> bool {
        &&& self.buttons == other.buttons
        &&& self.last_buttons == other.last_buttons
        &&& self.cursor == other.cursor
        &&& self.last_cursor == other.last_cursor
        &&& self.start_cursor == other.start_cursor
        &&& self.hot_tag == other.hot_tag
        &&& self.active_tag == other.active_tag
        &&& self.hot_rect == other.hot_rect
        &&& self.active_rect == other.active_rect
        &&& self.capture == other.capture
    }

    /// Hands out the queued notifications, oldest first, and empties the queue.
    pub fn take_notifications(&mut self) -> (r: Vec<Notification>)
        ensures
            r@ == old(self).pending(),
            final(self).pending().len() == 0,
            final(self).records() == old(self).records(),
            final(self).wf() == old(self).wf(),
            final(self).children_unchanged(old(self)),
            final(self).same_input(old(self)),
    {
        let mut out: Vec<Notification> = Vec::new();
        std::mem::swap(&mut out, &mut self.notifications);
        out
    }
}


impl<Wgt, Hnd> Context<Wgt, Hnd> {
    /// Whether `self` differs from `other` at most in the item records.
    pub open(crate) spec fn same_but_records(&self, other: &Self) -> bool {
        &&& self.kids@ == other.kids@
        &&& self.same_input(other)
        &&& self.notifications@ == other.notifications@
    }

    /// The parent of item `i`.
    pub open spec fn parent_of(&self, i: int) -> int {
        self.rec(i).parent.itemid as int
    }

    /// Adds `child` as the last child of `item`, and queues `APPEND` for
    /// `item` (the parent), so that a container can configure the child by
    /// its ordinal once the embedding code runs the queued handlers. An item
    /// is appended at most once, and after its parent was created: the
    /// arena keeps every parent before its children, which is what keeps
    /// the hierarchy free of cycles.
    pub fn append(&mut self, item: Item, child: Item) -> (r: Item)
        requires
            old(self).wf(),
            old(self).has(item),
            old(self).has(child),
            old(self).parent_of(child.itemid as int) == -1,
            item.itemid < child.itemid,
        ensures
            final(self).wf(),
            r == child,
            final(self).count() == old(self).count(),
            final(self).children(item.itemid as int) == old(self).children(item.itemid as int).push(
                child.itemid as int,
            ),
            forall|i: int|
                0 <= i < old(self).count() && i != item.itemid ==> final(self).children(i)
                    == old(self).children(i),
            final(self).parent_of(child.itemid as int) == item.itemid,
            final(self).rec(child.itemid as int).kidid == old(self).children(item.itemid as int).len(),
            forall|i: int| #![trigger final(self).rec(i)]
                0 <= i < old(self).count() ==> {
                    let a = old(self).rec(i);
                    let b = final(self).rec(i);
                    &&& b.parent.itemid == (if i == child.itemid { item.itemid } else { a.parent.itemid })
                    &&& b.tag == a.tag && b.handler == a.handler && b.event_flags == a.event_flags
                    &&& b.layout_flags == a.layout_flags && b.size == a.size && b.margins == a.margins
                    &&& b.relto == a.relto && b.frozen == a.frozen && b.widget == a.widget
                    &&& b.rect == a.rect && b.computed_size == a.computed_size
                },
            final(self).same_input(old(self)),
            final(self).pending() == (if old(self).wants(item.itemid as int, APPEND) {
                old(self).pending().push(Notification { item, event: APPEND })
            } else {
                old(self).pending()
            }),
    {
        let ghost old_items = self.items@;
        let ghost old_kids = self.kids@;
        let p = item.itemid as usize;
        let c = child.itemid as usize;
        proof {
            assert(node_ok(old_items, old_kids, p as int));
            assert(node_ok(old_items, old_kids, c as int));
            let ks = old_kids[p as int];
            assert forall|a: int, b: int| 0 <= a < ks.len() && 0 <= b < ks.len() && a != b implies ks[a]
                != ks[b] by {
                assert(old_items[ks[a]].kidid == a);
                assert(old_items[ks[b]].kidid == b);
            }
            assert(ks.no_duplicates());
            ks.unique_seq_to_set();
            assert(ks.to_set().subset_of(vstd::set_lib::set_int_range(0, old_items.len() as int)));
            vstd::set_lib::lemma_int_range(0, old_items.len() as int);
            vstd::set_lib::lemma_len_subset(ks.to_set(), vstd::set_lib::set_int_range(0, old_items.len() as int));
        }
        let nkids = self.items[p].numkids;
        let lastkid = self.items[p].lastkid;
        self.items[p].numkids = nkids + 1;
        self.items[c].parent = item;
        self.items[c].kidid = nkids;
        if lastkid.itemid == -1 {
            self.items[p].firstkid = child;
            self.items[p].lastkid = child;
        } else {
            let l = lastkid.itemid as usize;
            self.items[c].previtem = lastkid;
            self.items[l].nextitem = child;
            self.items[p].lastkid = child;
        }
        self.kids = Ghost(self.kids@.update(p as int, self.kids@[p as int].push(c as int)));
        proof {
            let items = self.items@;
            let kids = self.kids@;
            let pi = p as int;
            let ci = c as int;
            assert forall|i: int| 0 <= i < items.len() implies #[trigger] node_ok(items, kids, i) by {
                assert(node_ok(old_items, old_kids, i));
                let ks = kids[i];
                assert forall|k: int| 0 <= k < ks.len() implies i < #[trigger] ks[k] < items.len()
                    && items[ks[k]].parent.itemid == i && items[ks[k]].kidid == k by {
                    if i == pi && k == ks.len() - 1 {
                    } else {
                        assert(ks[k] == old_kids[i][k]);
                        assert(ks[k] != ci);
                    }
                }
                if items[i].parent.itemid != -1 && i != ci {
                    let q = items[i].parent.itemid as int;
                    assert(old_items[i].parent.itemid == q);
                    if q == pi {
                        assert(kids[q][items[i].kidid as int] == old_kids[q][items[i].kidid as int]);
                    }
                }
                assert forall|k: int| 0 <= k < 4 implies -1 <= (#[trigger] items[i].relto@[k]).itemid
                    < items.len() by {
                    assert(items[i].relto@[k] == old_items[i].relto@[k]);
                }
            }
            assert forall|i: int| 0 <= i < items.len() implies sizes_ok(#[trigger] items[i]) by {
                assert(sizes_ok(old_items[i]));
            }
        }
        self.notify_item(item, APPEND);
        child
    }

    /// Freezes or thaws an item: a frozen item and its subtree take no part
    /// in hit-testing.
    pub fn set_frozen(&mut self, item: Item, enable: bool)
        requires
            old(self).wf(),
            old(self).has(item),
        ensures
            final(self).wf(),
            final(self).records() == old(self).records().update(
                item.itemid as int,
                (ItemImp { frozen: enable, ..old(self).rec(item.itemid as int) }),
            ),
            final(self).same_but_records(old(self)),
    {
        let ghost old_items = self.items@;
        let i = item.itemid as usize;
        self.items[i].frozen = enable;
        proof {
            lemma_update_keeps_tree(old_items, self.kids@, i as int, self.items@[i as int]);
        }
    }

    /// Sets the explicit size; zero on an axis means "computed from the
    /// children".
    pub fn set_size(&mut self, item: Item, w: u32, h: u32)
        requires
            old(self).wf(),
            old(self).has(item),
            w <= i32::MAX,
            h <= i32::MAX,
        ensures
            final(self).wf(),
            final(self).records() == old(self).records().update(
                item.itemid as int,
                (ItemImp { size: Vec2 { x: w as i32, y: h as i32 }, ..old(self).rec(item.itemid as int) }),
            ),
            final(self).same_but_records(old(self)),
    {
        let ghost old_items = self.items@;
        let i = item.itemid as usize;
        self.items[i].size = Vec2 { x: w as i32, y: h as i32 };
        proof {
            lemma_update_keeps_tree(old_items, self.kids@, i as int, self.items@[i as int]);
        }
    }

    /// The explicit width.
    pub fn get_width(&self, item: Item) -> (r: u32)
        requires
            self.wf(),
            self.has(item),
        ensures
            r as int == self.rec(item.itemid as int).size.x,
    {
        proof { self.lemma_wf_tree(); }
        self.items[item.itemid as usize].size.x as u32
    }

    /// The explicit height.
    pub fn get_height(&self, item: Item) -> (r: u32)
        requires
            self.wf(),
            self.has(item),
        ensures
            r as int == self.rec(item.itemid as int).size.y,
    {
        proof { self.lemma_wf_tree(); }
        self.items[item.itemid as usize].size.y as u32
    }

    /// Sets the anchor bits.
    pub fn set_layout(&mut self, item: Item, flags: LayoutFlags)
        requires
            old(self).wf(),
            old(self).has(item),
        ensures
            final(self).wf(),
            final(self).records() == old(self).records().update(
                item.itemid as int,
                (ItemImp { layout_flags: flags, ..old(self).rec(item.itemid as int) }),
            ),
            final(self).same_but_records(old(self)),
    {
        let ghost old_items = self.items@;
        let i = item.itemid as usize;
        self.items[i].layout_flags = flags;
        proof {
            lemma_update_keeps_tree(old_items, self.kids@, i as int, self.items@[i as int]);
        }
    }

    /// The anchor bits.
    pub fn get_layout(&self, item: Item) -> (r: LayoutFlags)
        requires
            self.has(item),
        ensures
            r == self.rec(item.itemid as int).layout_flags,
    {
        self.items[item.itemid as usize].layout_flags
    }

    /// Sets the margins: left, top, right, bottom.
    pub fn set_margins(&mut self, item: Item, l: i32, t: i32, r: i32, b: i32)
        requires
            old(self).wf(),
            old(self).has(item),
        ensures
            final(self).wf(),
            final(self).count() == old(self).count(),
            forall|j: int| 0 <= j < old(self).count() && j != item.itemid ==> final(self).rec(j) == old(self).rec(j),
            final(self).rec(item.itemid as int).margins@ == seq![l, t, r, b],
            same_links(final(self).rec(item.itemid as int), old(self).rec(item.itemid as int)),
            ({
                let a = old(self).rec(item.itemid as int);
                let n = final(self).rec(item.itemid as int);
                &&& n.tag == a.tag && n.handler == a.handler && n.event_flags == a.event_flags
                &&& n.layout_flags == a.layout_flags && n.size == a.size && n.frozen == a.frozen
                &&& n.widget == a.widget && n.rect == a.rect && n.computed_size == a.computed_size
                &&& n.sized == a.sized && n.placed == a.placed
            }),
            final(self).same_but_records(old(self)),
    {
        let ghost old_items = self.items@;
        let i = item.itemid as usize;
        self.items[i].margins = [l, t, r, b];
        proof {
            lemma_update_keeps_tree(old_items, self.kids@, i as int, self.items@[i as int]);
            assert(self.items@[i as int].margins@ =~= seq![l, t, r, b]);
        }
    }

    /// The left margin.
    pub fn get_margin_left(&self, item: Item) -> (r: i32)
        requires
            self.has(item),
        ensures
            r == self.rec(item.itemid as int).margins@[0],
    {
        self.items[item.itemid as usize].margins[0]
    }

    /// The top margin.
    pub fn get_margin_top(&self, item: Item) -> (r: i32)
        requires
            self.has(item),
        ensures
            r == self.rec(item.itemid as int).margins@[1],
    {
        self.items[item.itemid as usize].margins[1]
    }

    /// The right margin.
    pub fn get_margin_right(&self, item: Item) -> (r: i32)
        requires
            self.has(item),
        ensures
            r == self.rec(item.itemid as int).margins@[2],
    {
        self.items[item.itemid as usize].margins[2]
    }

    /// The bottom margin.
    pub fn get_margin_down(&self, item: Item) -> (r: i32)
        requires
            self.has(item),
        ensures
            r == self.rec(item.itemid as int).margins@[3],
    {
        self.items[item.itemid as usize].margins[3]
    }

    /// Sets neighbour `side` (0 left, 1 top, 2 right, 3 bottom), which must
    /// be none or a sibling of the item.
    fn set_rel_to(&mut self, item: Item, side: usize, other: Item)
        requires
            old(self).wf(),
            old(self).has(item),
            side < 4,
            other.itemid == -1 || (old(self).has(other) && old(self).parent_of(other.itemid as int)
                == old(self).parent_of(item.itemid as int)),
        ensures
            final(self).wf(),
            final(self).count() == old(self).count(),
            forall|j: int| 0 <= j < old(self).count() && j != item.itemid ==> final(self).rec(j) == old(self).rec(j),
            final(self).rec(item.itemid as int).relto@ == old(self).rec(item.itemid as int).relto@.update(side as int, other),
            final(self).rec(item.itemid as int) == (ItemImp { relto: final(self).rec(item.itemid as int).relto, ..old(self).rec(item.itemid as int) }),
            final(self).same_but_records(old(self)),
    {
        let ghost old_items = self.items@;
        let ghost old_kids = self.kids@;
        let i = item.itemid as usize;
        self.items[i].relto[side] = other;
        proof {
            let items = self.items@;
            assert forall|j: int| 0 <= j < items.len() implies #[trigger] node_ok(items, old_kids, j) by {
                assert(node_ok(old_items, old_kids, j));
                let ks = old_kids[j];
                assert forall|k: int| 0 <= k < ks.len() implies j < #[trigger] ks[k] < items.len()
                    && items[ks[k]].parent.itemid == j && items[ks[k]].kidid == k by {}
                assert forall|k: int| 0 <= k < 4 implies -1 <= (#[trigger] items[j].relto@[k]).itemid
                    < items.len() by {
                    if j != i && k != side {
                        assert(items[j].relto@[k] == old_items[j].relto@[k]);
                    }
                }
            }
            assert forall|j: int| 0 <= j < items.len() implies sizes_ok(#[trigger] items[j]) by {
                assert(sizes_ok(old_items[j]));
            }
        }
    }

    /// Anchors the item's left edge to `other`, a sibling, or to the
    /// parent when `other` is none.
    pub fn set_rel_to_left(&mut self, item: Item, other: Item)
        requires
            old(self).wf(),
            old(self).has(item),
            other.itemid == -1 || (old(self).has(other) && old(self).parent_of(other.itemid as int)
                == old(self).parent_of(item.itemid as int)),
        ensures
            final(self).wf(),
            final(self).count() == old(self).count(),
            forall|j: int| 0 <= j < old(self).count() && j != item.itemid ==> final(self).rec(j) == old(self).rec(j),
            final(self).rec(item.itemid as int).relto@ == old(self).rec(item.itemid as int).relto@.update(0, other),
            final(self).rec(item.itemid as int) == (ItemImp { relto: final(self).rec(item.itemid as int).relto, ..old(self).rec(item.itemid as int) }),
            final(self).same_but_records(old(self)),
    {
        self.set_rel_to(item, 0, other);
    }

    /// The left neighbour.
    pub fn get_rel_to_left(&self, item: Item) -> (r: Item)
        requires
            self.has(item),
        ensures
            r == self.rec(item.itemid as int).relto@[0],
    {
        self.items[item.itemid as usize].relto[0]
    }

    /// Anchors the item's top edge to `other`, a sibling, or to the
    /// parent when `other` is none.
    pub fn set_rel_to_top(&mut self, item: Item, other: Item)
        requires
            old(self).wf(),
            old(self).has(item),
            other.itemid == -1 || (old(self).has(other) && old(self).parent_of(other.itemid as int)
                == old(self).parent_of(item.itemid as int)),
        ensures
            final(self).wf(),
            final(self).count() == old(self).count(),
            forall|j: int| 0 <= j < old(self).count() && j != item.itemid ==> final(self).rec(j) == old(self).rec(j),
            final(self).rec(item.itemid as int).relto@ == old(self).rec(item.itemid as int).relto@.update(1, other),
            final(self).rec(item.itemid as int) == (ItemImp { relto: final(self).rec(item.itemid as int).relto, ..old(self).rec(item.itemid as int) }),
            final(self).same_but_records(old(self)),
    {
        self.set_rel_to(item, 1, other);
    }

    /// The top neighbour.
    pub fn get_rel_to_top(&self, item: Item) -> (r: Item)
        requires
            self.has(item),
        ensures
            r == self.rec(item.itemid as int).relto@[1],
    {
        self.items[item.itemid as usize].relto[1]
    }

    /// Anchors the item's right edge to `other`, a sibling, or to the
    /// parent when `other` is none.
    pub fn set_rel_to_right(&mut self, item: Item, other: Item)
        requires
            old(self).wf(),
            old(self).has(item),
            other.itemid == -1 || (old(self).has(other) && old(self).parent_of(other.itemid as int)
                == old(self).parent_of(item.itemid as int)),
        ensures
            final(self).wf(),
            final(self).count() == old(self).count(),
            forall|j: int| 0 <= j < old(self).count() && j != item.itemid ==> final(self).rec(j) == old(self).rec(j),
            final(self).rec(item.itemid as int).relto@ == old(self).rec(item.itemid as int).relto@.update(2, other),
            final(self).rec(item.itemid as int) == (ItemImp { relto: final(self).rec(item.itemid as int).relto, ..old(self).rec(item.itemid as int) }),
            final(self).same_but_records(old(self)),
    {
        self.set_rel_to(item, 2, other);
    }

    /// The right neighbour.
    pub fn get_rel_to_right(&self, item: Item) -> (r: Item)
        requires
            self.has(item),
        ensures
            r == self.rec(item.itemid as int).relto@[2],
    {
        self.items[item.itemid as usize].relto[2]
    }

    /// Anchors the item's bottom edge to `other`, a sibling, or to the
    /// parent when `other` is none.
    pub fn set_rel_to_down(&mut self, item: Item, other: Item)
        requires
            old(self).wf(),
            old(self).has(item),
            other.itemid == -1 || (old(self).has(other) && old(self).parent_of(other.itemid as int)
                == old(self).parent_of(item.itemid as int)),
        ensures
            final(self).wf(),
            final(self).count() == old(self).count(),
            forall|j: int| 0 <= j < old(self).count() && j != item.itemid ==> final(self).rec(j) == old(self).rec(j),
            final(self).rec(item.itemid as int).relto@ == old(self).rec(item.itemid as int).relto@.update(3, other),
            final(self).rec(item.itemid as int) == (ItemImp { relto: final(self).rec(item.itemid as int).relto, ..old(self).rec(item.itemid as int) }),
            final(self).same_but_records(old(self)),
    {
        self.set_rel_to(item, 3, other);
    }

    /// The bottom neighbour.
    pub fn get_rel_to_down(&self, item: Item) -> (r: Item)
        requires
            self.has(item),
        ensures
            r == self.rec(item.itemid as int).relto@[3],
    {
        self.items[item.itemid as usize].relto[3]
    }

    /// The resolved rectangle, relative to the parent.
    pub fn get_rect(&self, item: Item) -> (r: Rect)
        requires
            self.has(item),
        ensures
            r == self.rec(item.itemid as int).rect,
    {
        self.items[item.itemid as usize].rect
    }

    /// The absolute rectangle of the active item, taken when it became active.
    pub fn get_active_rect(&self) -> (r: Rect)
        ensures
            r == self.active_rect_value(),
    {
        self.active_rect
    }

    /// The first child, or none.
    pub fn first_child(&self, item: Item) -> (r: Item)
        requires
            self.wf(),
            self.has(item),
        ensures
            r == self.rec(item.itemid as int).firstkid,
            r.itemid == (if self.children(item.itemid as int).len() > 0 {
                self.children(item.itemid as int)[0]
            } else {
                -1
            }),
    {
        proof { assert(node_ok(self.items@, self.kids@, item.itemid as int)); }
        self.items[item.itemid as usize].firstkid
    }

    /// The last child, or none.
    pub fn last_child(&self, item: Item) -> (r: Item)
        requires
            self.wf(),
            self.has(item),
        ensures
            r == self.rec(item.itemid as int).lastkid,
            r.itemid == (if self.children(item.itemid as int).len() > 0 {
                self.children(item.itemid as int).last()
            } else {
                -1
            }),
    {
        proof { assert(node_ok(self.items@, self.kids@, item.itemid as int)); }
        self.items[item.itemid as usize].lastkid
    }

    /// The next sibling, or none.
    pub fn next_sibling(&self, item: Item) -> (r: Item)
        requires
            self.wf(),
            self.has(item),
        ensures
            r == self.rec(item.itemid as int).nextitem,
            ({
                let i = item.itemid as int;
                let p = self.parent_of(i);
                let k = self.rec(i).kidid as int;
                r.itemid == (if p != -1 && k + 1 < self.children(p).len() { self.children(p)[k + 1] } else { -1 })
            }),
    {
        proof { assert(node_ok(self.items@, self.kids@, item.itemid as int)); }
        self.items[item.itemid as usize].nextitem
    }

    /// The previous sibling, or none.
    pub fn prev_sibling(&self, item: Item) -> (r: Item)
        requires
            self.wf(),
            self.has(item),
        ensures
            r == self.rec(item.itemid as int).previtem,
            ({
                let i = item.itemid as int;
                let p = self.parent_of(i);
                let k = self.rec(i).kidid as int;
                r.itemid == (if p != -1 && k > 0 { self.children(p)[k - 1] } else { -1 })
            }),
    {
        proof { assert(node_ok(self.items@, self.kids@, item.itemid as int)); }
        self.items[item.itemid as usize].previtem
    }

    /// The parent, or none.
    pub fn parent(&self, item: Item) -> (r: Item)
        requires
            self.has(item),
        ensures
            r.itemid == self.parent_of(item.itemid as int),
    {
        self.items[item.itemid as usize].parent
    }

    /// The item's payload.
    pub fn get_widget(&self, item: Item) -> (r: &Wgt)
        requires
            self.has(item),
        ensures
            *r == self.rec(item.itemid as int).widget,
    {
        &self.items[item.itemid as usize].widget
    }

    /// Replaces the item's payload.
    pub fn set_widget(&mut self, item: Item, wgt: Wgt)
        requires
            old(self).wf(),
            old(self).has(item),
        ensures
            final(self).wf(),
            final(self).records() == old(self).records().update(
                item.itemid as int,
                (ItemImp { widget: wgt, ..old(self).rec(item.itemid as int) }),
            ),
            final(self).same_but_records(old(self)),
    {
        let ghost old_items = self.items@;
        let i = item.itemid as usize;
        self.items[i].widget = wgt;
        proof {
            lemma_update_keeps_tree(old_items, self.kids@, i as int, self.items@[i as int]);
        }
    }

    /// Sets the item's tag. An item that takes the tag the hot (or active)
    /// item had at the last `process` becomes the hot (or active) item, so
    /// interaction survives a rebuild of the tree.
    pub fn set_tag(&mut self, item: Item, tag: Tag)
        requires
            old(self).wf(),
            old(self).has(item),
        ensures
            final(self).wf(),
            final(self).records() == old(self).records().update(
                item.itemid as int,
                (ItemImp { tag, ..old(self).rec(item.itemid as int) }),
            ),
            final(self).hot() == (if tag != NO_TAG && tag == old(self).hot_tag_value() { item } else { old(self).hot() }),
            final(self).active() == (if tag != NO_TAG && tag == old(self).active_tag_value() { item } else { old(self).active() }),
            final(self).children_unchanged(old(self)),
            final(self).pending() == old(self).pending(),
            final(self).capture_state() == old(self).capture_state(),
            final(self).hot_tag_value() == old(self).hot_tag_value(),
            final(self).active_tag_value() == old(self).active_tag_value(),
    {
        let ghost old_items = self.items@;
        let i = item.itemid as usize;
        self.items[i].tag = tag;
        if tag != NO_TAG {
            if tag == self.hot_tag {
                self.hot_item = item;
            }
            if tag == self.active_tag {
                self.active_item = item;
            }
        }
        proof {
            lemma_update_keeps_tree(old_items, self.kids@, i as int, self.items@[i as int]);
        }
    }

    /// The item's tag.
    pub fn get_tag(&self, item: Item) -> (r: Tag)
        requires
            self.has(item),
        ensures
            r == self.rec(item.itemid as int).tag,
    {
        self.items[item.itemid as usize].tag
    }

    /// Registers the handler that takes the item's notifications, and the
    /// events it wants.
    pub fn set_handler(&mut self, item: Item, handler: Option<Hnd>, flags: EventFlags)
        requires
            old(self).wf(),
            old(self).has(item),
        ensures
            final(self).wf(),
            final(self).records() == old(self).records().update(
                item.itemid as int,
                (ItemImp { handler, event_flags: flags, ..old(self).rec(item.itemid as int) }),
            ),
            final(self).same_but_records(old(self)),
    {
        let ghost old_items = self.items@;
        let i = item.itemid as usize;
        self.items[i].handler = handler;
        self.items[i].event_flags = flags;
        proof {
            assert(self.items@ =~= old_items.update(i as int, self.items@[i as int]));
            lemma_update_keeps_tree(old_items, self.kids@, i as int, self.items@[i as int]);
        }
    }

    /// The events the item's handler wants.
    pub fn get_handler_flags(&self, item: Item) -> (r: EventFlags)
        requires
            self.has(item),
        ensures
            r == self.rec(item.itemid as int).event_flags,
    {
        self.items[item.itemid as usize].event_flags
    }

    /// The item's ordinal among its parent's children.
    pub fn get_child_id(&self, item: Item) -> (r: i32)
        requires
            self.has(item),
        ensures
            r == self.rec(item.itemid as int).kidid,
    {
        self.items[item.itemid as usize].kidid
    }

    /// The number of children.
    pub fn get_child_count(&self, item: Item) -> (r: i32)
        requires
            self.wf(),
            self.has(item),
        ensures
            r == self.rec(item.itemid as int).numkids,
            r == self.children(item.itemid as int).len(),
    {
        proof { assert(node_ok(self.items@, self.kids@, item.itemid as int)); }
        self.items[item.itemid as usize].numkids
    }
}

impl<Wgt, Hnd: Copy> Context<Wgt, Hnd> {
    /// The item's handler, if any.
    pub fn get_handler(&self, item: Item) -> (r: Option<Hnd>)
        requires
            self.has(item),
        ensures
            r == self.rec(item.itemid as int).handler,
    {
        self.items[item.itemid as usize].handler
    }
}

} // verus!
