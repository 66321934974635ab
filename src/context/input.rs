//! Hit-testing and the per-frame input state machine.
use vstd::prelude::*;
use crate::ItemState;
use crate::geom::{Vec2, Rect};
use crate::item::{
    Item, NO_TAG, BUTTON0_DOWN, BUTTON0_UP, BUTTON0_HOT_UP, BUTTON0_CAPTURE, has_flags,
};
use crate::util::{clamp32, narrow};
use super::{Context, MouseCapture, Notification, node_ok};

verus! {

/// The bound on coordinates relative to an item `i` levels deep.
pub open spec fn reach(i: int) -> int {
    (i + 1) * 0x8000_0000
}

proof fn lemma_reach_grows(i: int, j: int)
    requires
        0 <= i < j,
        j < 0x8000_0000,
    ensures
        reach(i) + 0x8000_0000 <= reach(j),
        reach(j) <= 0x4000_0000_0000_0000,
{
    assert(reach(i) + 0x8000_0000 <= reach(j)) by (nonlinear_arith)
        requires
            0 <= i < j,
    ;
    assert(reach(j) <= 0x4000_0000_0000_0000) by (nonlinear_arith)
        requires
            0 <= j < 0x8000_0000,
    ;
}

impl<Wgt, Hnd> Context<Wgt, Hnd> {
    /// The item hit by the point (`x`, `y`), given relative to the parent
    /// of item `i`, searching the subtree of `i`: none if `i` is frozen or
    /// the point is outside its rectangle, else the first child (in sibling
    /// order) whose subtree is hit, else `i` itself.
    pub open spec fn hit(&self, i: int, x: int, y: int) -> int
        decreases self.count() - i, self.children(i).len() + 1,
    {
        if !(0 <= i < self.count()) || self.rec(i).frozen {
            -1
        } else {
            let r = self.rec(i).rect;
            let lx = x - r.x;
            let ly = y - r.y;
            if 0 <= lx < r.w && 0 <= ly < r.h {
                let h = self.hit_kids(i, 0, lx, ly);
                if h != -1 {
                    h
                } else {
                    i
                }
            } else {
                -1
            }
        }
    }

    /// The first hit among the subtrees of the children of `i` from the
    /// `k`-th on, for a point relative to `i`.
    pub open spec fn hit_kids(&self, i: int, k: int, x: int, y: int) -> int
        decreases self.count() - i, self.children(i).len() - k,
    {
        if 0 <= i < self.count() && 0 <= k < self.children(i).len() && i < self.children(i)[k]
            < self.count() {
            let h = self.hit(self.children(i)[k], x, y);
            if h != -1 {
                h
            } else {
                self.hit_kids(i, k + 1, x, y)
            }
        } else {
            -1
        }
    }

    /// The horizontal position of item `i` in the coordinates of its root.
    pub open spec fn abs_x(&self, i: int) -> int
        decreases i,
    {
        if 0 <= i < self.count() && 0 <= self.parent_of(i) < i {
            self.rec(i).rect.x + self.abs_x(self.parent_of(i))
        } else {
            self.rec(i).rect.x as int
        }
    }

    /// The vertical position of item `i` in the coordinates of its root.
    pub open spec fn abs_y(&self, i: int) -> int
        decreases i,
    {
        if 0 <= i < self.count() && 0 <= self.parent_of(i) < i {
            self.rec(i).rect.y + self.abs_y(self.parent_of(i))
        } else {
            self.rec(i).rect.y as int
        }
    }

    /// The rectangle of item `i` in the coordinates of its root, its
    /// position clamped into `i32`.
    pub open spec fn abs_rect(&self, i: int) -> Rect {
        Rect {
            x: clamp32(self.abs_x(i)) as i32,
            y: clamp32(self.abs_y(i)) as i32,
            w: self.rec(i).rect.w,
            h: self.rec(i).rect.h,
        }
    }

    /// The state that `get_state` reports for item `i`.
    pub open spec fn state_of(&self, i: int) -> ItemState {
        let r = self.rec(i);
        if r.frozen {
            ItemState::FROZEN
        } else if self.active().itemid == i {
            if has_flags(r.event_flags, BUTTON0_CAPTURE) || has_flags(r.event_flags, BUTTON0_UP) {
                ItemState::ACTIVE
            } else if has_flags(r.event_flags, BUTTON0_HOT_UP) && self.hot().itemid == i {
                ItemState::ACTIVE
            } else {
                ItemState::COLD
            }
        } else if self.hot().itemid == i {
            ItemState::HOT
        } else {
            ItemState::COLD
        }
    }

    fn find_in(&self, item: Item, x: i64, y: i64) -> (r: Item)
        requires
            self.wf(),
            self.has(item),
            -reach(item.itemid as int) <= x <= reach(item.itemid as int),
            -reach(item.itemid as int) <= y <= reach(item.itemid as int),
        ensures
            r.itemid == self.hit(item.itemid as int, x as int, y as int),
        decreases self.count() - item.itemid,
    {
        let i = item.itemid as usize;
        proof {
            self.lemma_wf_tree();
            assert(node_ok(self.items@, self.kids@, i as int));
        }
        if self.items[i].frozen {
            return Item::none();
        }
        let rect = self.items[i].rect;
        let lx: i64 = x - rect.x as i64;
        let ly: i64 = y - rect.y as i64;
        if 0 <= lx && 0 <= ly && lx < rect.w as i64 && ly < rect.h as i64 {
            let ghost ks = self.kids@[i as int];
            let mut kid = self.items[i].firstkid;
            let mut k: usize = 0;
            while kid.itemid != -1
                invariant
                    self.wf(),
                    i == item.itemid,
                    0 <= i < self.count(),
                    !self.rec(i as int).frozen,
                    0 <= lx < rect.w,
                    0 <= ly < rect.h,
                    ks == self.children(i as int),
                    0 <= k <= ks.len(),
                    kid.itemid == (if k < ks.len() { ks[k as int] } else { -1 }),
                    self.hit_kids(i as int, 0, lx as int, ly as int) == self.hit_kids(
                        i as int,
                        k as int,
                        lx as int,
                        ly as int,
                    ),
                    lx == x - rect.x,
                    ly == y - rect.y,
                    rect == self.rec(i as int).rect,
                    -reach(i as int) <= x <= reach(i as int),
                    -reach(i as int) <= y <= reach(i as int),
                decreases ks.len() - k,
            {
                proof {
                    self.lemma_wf_tree();
                    assert(node_ok(self.items@, self.kids@, i as int));
                    assert(node_ok(self.items@, self.kids@, kid.itemid as int));
                    lemma_reach_grows(i as int, kid.itemid as int);
                }
                assert(i < ks[k as int] < self.count());
                let best = self.find_in(kid, lx, ly);
                if best.itemid != -1 {
                    assert(self.hit_kids(i as int, k as int, lx as int, ly as int) == best.itemid);
                    return best;
                }
                kid = self.items[kid.itemid as usize].nextitem;
                k = k + 1;
            }
            assert(self.hit_kids(i as int, k as int, lx as int, ly as int) == -1);
            item
        } else {
            Item::none()
        }
    }

    /// The item under the point (`x`, `y`), given relative to the parent of
    /// `item`: the innermost unfrozen item of the subtree of `item` whose
    /// rectangle holds the point, taking the first child in sibling order
    /// where several do; none when there is none.
    pub fn find_item(&self, item: Item, x: i32, y: i32) -> (r: Item)
        requires
            self.wf(),
            self.has(item),
        ensures
            r.itemid == self.hit(item.itemid as int, x as int, y as int),
    {
        proof {
            assert(reach(0) <= reach(item.itemid as int)) by (nonlinear_arith)
                requires
                    item.itemid >= 0,
            ;
        }
        self.find_in(item, x as i64, y as i64)
    }

    /// The rectangle of an item in the coordinates of its root, its position
    /// clamped into `i32`.
    pub fn get_abs_rect(&self, item: Item) -> (r: Rect)
        requires
            self.wf(),
            self.has(item),
        ensures
            r == self.abs_rect(item.itemid as int),
    {
        proof {
            self.lemma_wf_tree();
        }
        let i = item.itemid as usize;
        let rect = self.items[i].rect;
        let mut ax: i64 = rect.x as i64;
        let mut ay: i64 = rect.y as i64;
        let mut cur: usize = i;
        let mut steps: usize = 1;
        while self.items[cur].parent.itemid != -1
            invariant
                self.wf(),
                0 <= cur <= i < self.count(),
                1 <= steps <= i - cur + 1,
                ax + self.abs_x(cur as int) - self.rec(cur as int).rect.x == self.abs_x(i as int),
                ay + self.abs_y(cur as int) - self.rec(cur as int).rect.y == self.abs_y(i as int),
                -(steps as int) * 0x8000_0000 <= ax <= (steps as int) * 0x8000_0000,
                -(steps as int) * 0x8000_0000 <= ay <= (steps as int) * 0x8000_0000,
            decreases cur,
        {
            proof {
                self.lemma_wf_tree();
                assert(node_ok(self.items@, self.kids@, cur as int));
            }
            cur = self.items[cur].parent.itemid as usize;
            let pr = self.items[cur].rect;
            proof {
                assert((steps as int) * 0x8000_0000 + 0x8000_0000 == (steps as int + 1) * 0x8000_0000)
                    by (nonlinear_arith);
                assert((steps as int + 1) * 0x8000_0000 <= 0x8000_0000 * 0x8000_0000)
                    by (nonlinear_arith)
                    requires
                        steps + 1 <= 0x8000_0000,
                ;
            }
            ax = ax + pr.x as i64;
            ay = ay + pr.y as i64;
            steps = steps + 1;
        }
        Rect { x: narrow(ax), y: narrow(ay), w: rect.w, h: rect.h }
    }

    /// Whether `item` holds the capture.
    pub fn is_active(&self, item: Item) -> (r: bool)
        ensures
            r == (self.active() == item),
    {
        self.active_item == item
    }

    /// Whether `item` is under the cursor.
    pub fn is_hot(&self, item: Item) -> (r: bool)
        ensures
            r == (self.hot() == item),
    {
        self.hot_item == item
    }

    /// The state a renderer draws `item` in: `FROZEN` if frozen; else
    /// `ACTIVE` if it holds the capture and wants `BUTTON0_CAPTURE` or
    /// `BUTTON0_UP`, or wants `BUTTON0_HOT_UP` and is hot; else `HOT` if
    /// hovered; else `COLD`.
    pub fn get_state(&self, item: Item) -> (r: ItemState)
        requires
            self.has(item),
        ensures
            r == self.state_of(item.itemid as int),
    {
        let hot = self.is_hot(item);
        let active = self.is_active(item);
        let i = item.itemid as usize;
        let flags = self.items[i].event_flags;
        if self.items[i].frozen {
            return ItemState::FROZEN;
        }
        if active {
            if flags & BUTTON0_CAPTURE == BUTTON0_CAPTURE || flags & BUTTON0_UP == BUTTON0_UP {
                return ItemState::ACTIVE;
            }
            if flags & BUTTON0_HOT_UP == BUTTON0_HOT_UP && hot {
                return ItemState::ACTIVE;
            }
            ItemState::COLD
        } else if hot {
            ItemState::HOT
        } else {
            ItemState::COLD
        }
    }
}


impl<Wgt, Hnd> Context<Wgt, Hnd> {
    /// Being below is transitive.
    pub proof fn lemma_desc_trans(&self, a: int, b: int, c: int)
        requires
            self.is_desc(a, b),
            self.is_desc(b, c),
        ensures
            self.is_desc(a, c),
        decreases a,
    {
        if a != b {
            self.lemma_desc_trans(self.parent_of(a), b, c);
        }
    }

    /// A hit lies in the searched subtree and is not frozen.
    pub proof fn lemma_hit_in(&self, i: int, x: int, y: int)
        requires
            self.wf(),
        ensures
            ({
                let h = self.hit(i, x, y);
                h == -1 || (0 <= h < self.count() && self.is_desc(h, i) && !self.rec(h).frozen)
            }),
        decreases self.count() - i, self.children(i).len() + 1,
    {
        if 0 <= i < self.count() && !self.rec(i).frozen {
            let r = self.rec(i).rect;
            self.lemma_hit_kids_in(i, 0, x - r.x, y - r.y);
        }
    }

    /// A hit among the children's subtrees lies below the parent and is
    /// not frozen.
    pub proof fn lemma_hit_kids_in(&self, i: int, k: int, x: int, y: int)
        requires
            self.wf(),
        ensures
            ({
                let h = self.hit_kids(i, k, x, y);
                h == -1 || (0 <= h < self.count() && self.is_desc(h, i) && h != i && !self.rec(h).frozen)
            }),
        decreases self.count() - i, self.children(i).len() - k,
    {
        if 0 <= i < self.count() && 0 <= k < self.children(i).len() && i < self.children(i)[k]
            < self.count() {
            let c = self.children(i)[k];
            self.lemma_hit_in(c, x, y);
            self.lemma_hit_kids_in(i, k + 1, x, y);
            let h = self.hit(c, x, y);
            if h != -1 {
                self.lemma_wf_tree();
                assert(super::node_ok(self.records(), self.kid_lists(), i));
                assert(self.rec(c).parent.itemid == i);
                assert(self.is_desc(i, i));
                assert(self.is_desc(c, i));
                self.lemma_desc_trans(h, c, i);
                self.lemma_desc_index(h, c);
            }
        }
    }

    /// An item below another has a handle no smaller.
    pub proof fn lemma_desc_index(&self, a: int, b: int)
        requires
            self.is_desc(a, b),
        ensures
            a >= b,
        decreases a,
    {
        if a != b {
            self.lemma_desc_index(self.parent_of(a), b);
        }
    }

    /// Whether button 0 is down in this frame.
    pub open spec fn button0_down(&self) -> bool {
        self.button_bits() & 1 != 0
    }

    /// `n` as a one-element queue when `item` wants `event`, else empty.
    pub open spec fn note(&self, item: int, event: u32) -> Seq<Notification> {
        if 0 <= item < self.count() && self.wants(item, event) {
            seq![Notification { item: Item { itemid: item as i32 }, event }]
        } else {
            Seq::empty()
        }
    }

    /// The notifications one frame of `process` queues, when the hit test
    /// under the cursor gave `h`.
    pub open spec fn frame_notes(&self, h: int) -> Seq<Notification> {
        let a = self.active().itemid as int;
        match self.capture_state() {
            MouseCapture::Idle => if self.button0_down() {
                self.note(h, BUTTON0_DOWN)
            } else {
                Seq::empty()
            },
            MouseCapture::Capturing => if !self.button0_down() {
                self.note(a, BUTTON0_UP) + (if a == h {
                    self.note(a, BUTTON0_HOT_UP)
                } else {
                    Seq::empty()
                })
            } else {
                self.note(a, BUTTON0_CAPTURE)
            },
        }
    }

    /// The item under the cursor: what the hit test from the root finds,
    /// none in an empty context.
    pub open spec fn under_cursor(&self) -> int {
        if self.count() == 0 {
            -1
        } else {
            self.hit(0, self.cursor_pos().x as int, self.cursor_pos().y as int)
        }
    }

    /// The tag of item `i`, or `NO_TAG` for none.
    pub open spec fn tag_or_none(&self, i: int) -> u64 {
        if i == -1 {
            NO_TAG
        } else {
            self.rec(i).tag
        }
    }

    /// Advances the input state machine by one frame, from the cursor and
    /// the buttons set for it:
    /// - idle, button 0 down: the item under the cursor becomes active (its
    ///   absolute rectangle is kept), nothing is hot, `BUTTON0_DOWN` goes to
    ///   it, and the capture starts;
    /// - idle, button 0 up: the item under the cursor becomes hot;
    /// - capturing, button 0 up: `BUTTON0_UP` goes to the active item, then
    ///   `BUTTON0_HOT_UP` too if it is under the cursor; nothing is active
    ///   any more and the capture ends;
    /// - capturing, button 0 down: `BUTTON0_CAPTURE` goes to the active
    ///   item, which is hot only while it is under the cursor.
    /// Frozen items and their subtrees are never under the cursor; in an
    /// empty context nothing is.
    pub fn process(&mut self)
        requires
            old(self).wf(),
        ensures
            final(self).wf(),
            final(self).records() == old(self).records(),
            final(self).children_unchanged(old(self)),
            final(self).button_bits() == old(self).button_bits(),
            final(self).cursor_pos() == old(self).cursor_pos(),
            ({
                let h = old(self).under_cursor();
                let a = old(self).active().itemid as int;
                let down = old(self).button0_down();
                let idle = old(self).capture_state() == MouseCapture::Idle;
                &&& final(self).pending() == old(self).pending() + old(self).frame_notes(h)
                &&& final(self).active().itemid == (if idle && down {
                    h
                } else if !idle && !down {
                    -1
                } else {
                    a
                })
                &&& final(self).hot().itemid == (if idle {
                    if down { -1 } else { h }
                } else if down {
                    if h == a { h } else { -1 }
                } else {
                    old(self).hot().itemid as int
                })
                &&& final(self).capture_state() == (if down {
                    MouseCapture::Capturing
                } else {
                    MouseCapture::Idle
                })
                &&& final(self).start_cursor_pos() == (if idle {
                    old(self).cursor_pos()
                } else {
                    old(self).start_cursor_pos()
                })
                &&& final(self).active_rect_value() == (if idle && down {
                    if h != -1 { old(self).abs_rect(h) } else { Rect { x: 0, y: 0, w: 0, h: 0 } }
                } else {
                    old(self).active_rect_value()
                })
                &&& final(self).last_cursor_pos() == old(self).cursor_pos()
                &&& final(self).last_button_bits() == old(self).button_bits()
                &&& final(self).hot_tag_value() == final(self).tag_or_none(final(self).hot().itemid as int)
                &&& final(self).active_tag_value() == final(self).tag_or_none(
                    final(self).active().itemid as int,
                )
            }),
    {
        let cursor = self.cursor;
        let root = self.root();
        let hot = if self.items.len() == 0 {
            Item::none()
        } else {
            self.find_item(root, cursor.x, cursor.y)
        };
        let active = self.active_item;
        let down = self.buttons & 1 != 0;
        let ghost pre = *self;
        let ghost h = hot.itemid as int;
        proof {
            self.lemma_wf_tree();
            if self.count() > 0 {
                self.lemma_hit_in(0, cursor.x as int, cursor.y as int);
            }
        }
        let hot_rect = if hot.itemid != -1 {
            self.get_abs_rect(hot)
        } else {
            Rect::zero()
        };
        self.hot_rect = hot_rect;
        match self.capture {
            MouseCapture::Idle => {
                self.start_cursor = cursor;
                if down {
                    self.hot_item = Item::none();
                    self.active_rect = hot_rect;
                    self.active_item = hot;
                    if hot.itemid != -1 {
                        self.notify_item(hot, BUTTON0_DOWN);
                    }
                    self.capture = MouseCapture::Capturing;
                } else {
                    self.hot_item = hot;
                }
            },
            MouseCapture::Capturing => {
                if !down {
                    if active.itemid != -1 {
                        self.notify_item(active, BUTTON0_UP);
                        if active == hot {
                            self.notify_item(active, BUTTON0_HOT_UP);
                        }
                    }
                    self.active_item = Item::none();
                    self.capture = MouseCapture::Idle;
                } else {
                    if active.itemid != -1 {
                        self.notify_item(active, BUTTON0_CAPTURE);
                    }
                    if hot == active {
                        self.hot_item = hot;
                    } else {
                        self.hot_item = Item::none();
                    }
                }
            },
        }
        self.last_cursor = self.cursor;
        self.last_buttons = self.buttons;
        let active = self.active_item;
        let hot = self.hot_item;
        self.hot_tag = if hot.itemid != -1 { self.get_tag(hot) } else { NO_TAG };
        self.active_tag = if active.itemid != -1 { self.get_tag(active) } else { NO_TAG };
        proof {
            assert(self.pending() =~= pre.pending() + pre.frame_notes(h));
        }
    }
}

} // verus!
