//! Handlers for container items: run on `APPEND`, they anchor the newest
//! child of the container to the one before it.
use vstd::prelude::*;
use crate::context::{Context, node_ok};
use crate::item::{Item, EventFlags, HFILL, TOP, LEFT, RIGHT};

verus! {

/// What stacking the newest child of `parent` under the previous one leaves:
/// it anchors to that sibling above, fills horizontally, and has `gap` as
/// top margin when there is a sibling above (else none).
pub open spec fn stacked<Wgt, Hnd>(
    before: Context<Wgt, Hnd>,
    after: Context<Wgt, Hnd>,
    parent: int,
    gap: i32,
) -> bool {
    let ks = before.children(parent);
    let item = ks.last();
    let last = if ks.len() > 1 { ks[ks.len() - 2] } else { -1 };
    &&& after.wf()
    &&& after.count() == before.count()
    &&& after.kid_lists() == before.kid_lists()
    &&& after.pending() == before.pending()
    &&& forall|m: int| 0 <= m < before.count() && m != item ==> #[trigger] after.rec(m) == before.rec(m)
    &&& after.rec(item).relto@ == before.rec(item).relto@.update(1, Item { itemid: last as i32 })
    &&& after.rec(item).layout_flags == HFILL | TOP
    &&& after.rec(item).margins@ == seq![0i32, if last == -1 { 0i32 } else { gap }, 0i32, 0i32]
    &&& after.rec(item).size == before.rec(item).size
}

/// What lining up the newest child of `parent` after the previous one
/// leaves: the two anchor to each other, the newest anchors left and right,
/// and has `gap` as left margin when there is a sibling before it.
pub open spec fn lined<Wgt, Hnd>(
    before: Context<Wgt, Hnd>,
    after: Context<Wgt, Hnd>,
    parent: int,
    gap: i32,
) -> bool {
    let ks = before.children(parent);
    let item = ks.last();
    let last = if ks.len() > 1 { ks[ks.len() - 2] } else { -1 };
    &&& after.wf()
    &&& after.count() == before.count()
    &&& after.kid_lists() == before.kid_lists()
    &&& after.pending() == before.pending()
    &&& forall|m: int|
        0 <= m < before.count() && m != item && m != last ==> #[trigger] after.rec(m) == before.rec(m)
    &&& after.rec(item).relto@ == before.rec(item).relto@.update(0, Item { itemid: last as i32 })
    &&& after.rec(item).layout_flags == LEFT | RIGHT
    &&& after.rec(item).margins@ == seq![if last == -1 { 0i32 } else { gap }, 0i32, 0i32, 0i32]
    &&& after.rec(item).size == before.rec(item).size
    &&& last != -1 ==> after.rec(last).relto@ == before.rec(last).relto@.update(2, Item { itemid: item as i32 })
        && after.rec(last) == (crate::item::ItemImp { relto: after.rec(last).relto, ..before.rec(last) })
}

/// Stacks the newest child of `parent` under the previous one, with `gap`
/// between them.
fn stack_newest<Wgt, Hnd>(ui: &mut Context<Wgt, Hnd>, parent: Item, gap: i32)
    requires
        old(ui).wf(),
        old(ui).has(parent),
        old(ui).children(parent.itemid as int).len() > 0,
    ensures
        stacked(*old(ui), *final(ui), parent.itemid as int, gap),
{
    let ghost pre = *ui;
    proof {
        pre.lemma_wf_tree();
        assert(node_ok(pre.records(), pre.kid_lists(), parent.itemid as int));
    }
    let item = ui.last_child(parent);
    let last = ui.prev_sibling(item);
    proof {
        let p = parent.itemid as int;
        let ks = pre.children(p);
        assert(node_ok(pre.records(), pre.kid_lists(), item.itemid as int));
        assert(pre.rec(item.itemid as int).kidid == ks.len() - 1);
        if last.itemid != -1 {
            assert(node_ok(pre.records(), pre.kid_lists(), last.itemid as int));
        }
    }
    ui.set_rel_to_top(item, last);
    ui.set_layout(item, HFILL | TOP);
    let g: i32 = if last.itemid == -1 { 0 } else { gap };
    ui.set_margins(item, 0, g, 0, 0);
}

/// Lines up the newest child of `parent` after the previous one, linking
/// the two both ways, with `gap` between them.
fn line_newest<Wgt, Hnd>(ui: &mut Context<Wgt, Hnd>, parent: Item, gap: i32)
    requires
        old(ui).wf(),
        old(ui).has(parent),
        old(ui).children(parent.itemid as int).len() > 0,
    ensures
        lined(*old(ui), *final(ui), parent.itemid as int, gap),
{
    let ghost pre = *ui;
    proof {
        pre.lemma_wf_tree();
        assert(node_ok(pre.records(), pre.kid_lists(), parent.itemid as int));
    }
    let item = ui.last_child(parent);
    let last = ui.prev_sibling(item);
    proof {
        let p = parent.itemid as int;
        let ks = pre.children(p);
        assert(node_ok(pre.records(), pre.kid_lists(), item.itemid as int));
        assert(pre.rec(item.itemid as int).kidid == ks.len() - 1);
        if last.itemid != -1 {
            assert(node_ok(pre.records(), pre.kid_lists(), last.itemid as int));
        }
    }
    ui.set_rel_to_left(item, last);
    if last.itemid != -1 {
        ui.set_rel_to_right(last, item);
    }
    ui.set_layout(item, LEFT | RIGHT);
    let g: i32 = if last.itemid == -1 { 0 } else { gap };
    ui.set_margins(item, g, 0, 0, 0);
}

/// On `APPEND` to a column: the new child goes under the previous one,
/// filling the column's width, one unit below it.
pub fn columnhandler<Wgt, Hnd>(ui: &mut Context<Wgt, Hnd>, parent: Item, _event: EventFlags)
    requires
        old(ui).wf(),
        old(ui).has(parent),
        old(ui).children(parent.itemid as int).len() > 0,
    ensures
        stacked(*old(ui), *final(ui), parent.itemid as int, 1),
{
    stack_newest(ui, parent, 1);
}

/// On `APPEND` to a row: the new child goes after the previous one, eight
/// units on, the two linked both ways.
pub fn rowhandler<Wgt, Hnd>(ui: &mut Context<Wgt, Hnd>, parent: Item, _event: EventFlags)
    requires
        old(ui).wf(),
        old(ui).has(parent),
        old(ui).children(parent.itemid as int).len() > 0,
    ensures
        lined(*old(ui), *final(ui), parent.itemid as int, 8),
{
    line_newest(ui, parent, 8);
}

/// On `APPEND` to a vertical group: the new child goes under the previous
/// one, filling the group's width, overlapping its border by two units.
pub fn vgrouphandler<Wgt, Hnd>(ui: &mut Context<Wgt, Hnd>, parent: Item, _event: EventFlags)
    requires
        old(ui).wf(),
        old(ui).has(parent),
        old(ui).children(parent.itemid as int).len() > 0,
    ensures
        stacked(*old(ui), *final(ui), parent.itemid as int, -2i32),
{
    stack_newest(ui, parent, -2);
}

/// On `APPEND` to a horizontal group: the new child goes after the previous
/// one, overlapping its border by one unit, the two linked both ways.
pub fn hgrouphandler<Wgt, Hnd>(ui: &mut Context<Wgt, Hnd>, parent: Item, _event: EventFlags)
    requires
        old(ui).wf(),
        old(ui).has(parent),
        old(ui).children(parent.itemid as int).len() > 0,
    ensures
        lined(*old(ui), *final(ui), parent.itemid as int, -1i32),
{
    line_newest(ui, parent, -1);
}

} // verus!
