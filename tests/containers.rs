use oui::containers::{columnhandler, hgrouphandler, rowhandler, vgrouphandler};
use oui::context::Context;
use oui::geom::Rect;
use oui::item::{Item, APPEND, HFILL, LEFT, RIGHT, TOP};

#[derive(Clone, Copy, Debug, PartialEq)]
enum Kind {
    Column,
    Row,
    VGroup,
    HGroup,
}

type Ui = Context<&'static str, Kind>;

fn dispatch(ui: &mut Ui) {
    for n in ui.take_notifications() {
        match ui.get_handler(n.item) {
            Some(Kind::Column) => columnhandler(ui, n.item, n.event),
            Some(Kind::Row) => rowhandler(ui, n.item, n.event),
            Some(Kind::VGroup) => vgrouphandler(ui, n.item, n.event),
            Some(Kind::HGroup) => hgrouphandler(ui, n.item, n.event),
            None => {}
        }
    }
}

fn container(kind: Kind, w: u32, h: u32) -> (Ui, Item) {
    let mut ui: Ui = Context::create_context();
    let root = ui.item("container");
    ui.set_size(root, w, h);
    ui.set_handler(root, Some(kind), APPEND);
    (ui, root)
}

fn add(ui: &mut Ui, parent: Item, w: u32, h: u32) -> Item {
    let it = ui.item("child");
    ui.set_size(it, w, h);
    ui.append(parent, it);
    dispatch(ui);
    it
}

#[test]
fn column_stacks_children() {
    let (mut ui, root) = container(Kind::Column, 50, 0);
    let a = add(&mut ui, root, 0, 10);
    let b = add(&mut ui, root, 0, 10);
    assert_eq!(ui.get_layout(a), HFILL | TOP);
    assert_eq!(ui.get_rel_to_top(a), Item::none());
    assert_eq!(ui.get_margin_top(a), 0);
    assert_eq!(ui.get_rel_to_top(b), a);
    assert_eq!(ui.get_margin_top(b), 1);
    ui.layout();
    assert_eq!(ui.get_rect(root).h, 21);
    assert_eq!(ui.get_rect(a), Rect { x: 0, y: 0, w: 50, h: 10 });
    assert_eq!(ui.get_rect(b), Rect { x: 0, y: 11, w: 50, h: 10 });
}

#[test]
fn vgroup_overlaps_borders() {
    let (mut ui, root) = container(Kind::VGroup, 50, 0);
    let a = add(&mut ui, root, 0, 10);
    let b = add(&mut ui, root, 0, 10);
    assert_eq!(ui.get_margin_top(a), 0);
    assert_eq!(ui.get_margin_top(b), -2);
    ui.layout();
    assert_eq!(ui.get_rect(root).h, 18);
    assert_eq!(ui.get_rect(b).y, 8);
}

#[test]
fn row_links_neighbours_both_ways() {
    let (mut ui, root) = container(Kind::Row, 100, 20);
    let a = add(&mut ui, root, 30, 20);
    let b = add(&mut ui, root, 30, 20);
    assert_eq!(ui.get_layout(b), LEFT | RIGHT);
    assert_eq!(ui.get_rel_to_left(a), Item::none());
    assert_eq!(ui.get_rel_to_right(a), b);
    assert_eq!(ui.get_rel_to_left(b), a);
    assert_eq!(ui.get_margin_left(a), 0);
    assert_eq!(ui.get_margin_left(b), 8);
    ui.layout();
    assert_eq!(ui.get_rect(a).x, 0);
    assert_eq!(ui.get_rect(b).x, 70);
}

#[test]
fn hgroup_overlaps_borders() {
    let (mut ui, root) = container(Kind::HGroup, 0, 20);
    let a = add(&mut ui, root, 30, 20);
    let b = add(&mut ui, root, 30, 20);
    assert_eq!(ui.get_margin_left(b), -1);
    assert_eq!(ui.get_rel_to_right(a), b);
    ui.layout();
    assert_eq!(ui.get_rect(root).w, 59);
}
