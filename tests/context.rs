use oui::context::{Context, Notification};
use oui::geom::{Rect, Vec2};
use oui::item::{
    Item, APPEND, BUTTON0_CAPTURE, BUTTON0_DOWN, BUTTON0_HOT_UP, BUTTON0_UP, DOWN, FILL, HFILL, LEFT, NO_TAG,
    RIGHT, TOP,
};
use oui::ItemState;

type Ui = Context<&'static str, u32>;

const ALL_BUTTON0: u32 = BUTTON0_DOWN | BUTTON0_UP | BUTTON0_HOT_UP | BUTTON0_CAPTURE;

/// A 200x200 root with one 50x50 child `a` at (10, 10) that wants every
/// button-0 event.
fn one_button() -> (Ui, Item, Item) {
    let mut ui: Ui = Context::create_context();
    let root = ui.item("root");
    ui.set_size(root, 200, 200);
    let a = ui.item("a");
    ui.set_size(a, 50, 50);
    ui.set_layout(a, LEFT | TOP);
    ui.set_margins(a, 10, 10, 0, 0);
    ui.append(root, a);
    ui.set_handler(a, Some(7), ALL_BUTTON0);
    ui.layout();
    (ui, root, a)
}

fn frame(ui: &mut Ui, x: i32, y: i32, down: bool) -> Vec<Notification> {
    ui.set_cursor(x, y);
    ui.set_button(0, down);
    ui.process();
    ui.take_notifications()
}

fn note(item: Item, event: u32) -> Notification {
    Notification { item, event }
}

#[test]
fn press_drag_out_and_release_outside() {
    let (mut ui, _root, a) = one_button();
    assert_eq!(ui.get_rect(a), Rect { x: 10, y: 10, w: 50, h: 50 });
    assert_eq!(frame(&mut ui, 20, 20, true), vec![note(a, BUTTON0_DOWN)]);
    assert!(ui.is_active(a));
    assert_eq!(frame(&mut ui, 100, 100, true), vec![note(a, BUTTON0_CAPTURE)]);
    assert!(!ui.is_hot(a));
    assert_eq!(frame(&mut ui, 150, 150, true), vec![note(a, BUTTON0_CAPTURE)]);
    assert_eq!(frame(&mut ui, 150, 150, false), vec![note(a, BUTTON0_UP)]);
    assert!(!ui.is_active(a));
}

#[test]
fn click_without_moving() {
    let (mut ui, _root, a) = one_button();
    assert_eq!(frame(&mut ui, 20, 20, true), vec![note(a, BUTTON0_DOWN)]);
    assert_eq!(frame(&mut ui, 20, 20, false), vec![note(a, BUTTON0_UP), note(a, BUTTON0_HOT_UP)]);
    assert!(!ui.is_active(a));
    assert!(!ui.is_hot(a));
    assert_eq!(frame(&mut ui, 20, 20, false), vec![]);
    assert!(ui.is_hot(a));
}

#[test]
fn capture_returns_hot_when_back_over_item() {
    let (mut ui, _root, a) = one_button();
    frame(&mut ui, 20, 20, true);
    assert!(!ui.is_hot(a));
    frame(&mut ui, 25, 25, true);
    assert!(ui.is_hot(a));
    assert_eq!(ui.get_state(a), ItemState::ACTIVE);
    frame(&mut ui, 190, 190, true);
    assert!(!ui.is_hot(a));
    assert_eq!(ui.get_state(a), ItemState::ACTIVE);
}

#[test]
fn either_capture_flag_keeps_item_active() {
    let (mut ui, _root, a) = one_button();
    ui.set_handler(a, Some(7), BUTTON0_UP);
    frame(&mut ui, 20, 20, true);
    frame(&mut ui, 150, 150, true);
    assert!(!ui.is_hot(a));
    assert_eq!(ui.get_state(a), ItemState::ACTIVE);
    ui.set_handler(a, Some(7), BUTTON0_CAPTURE);
    assert_eq!(ui.get_state(a), ItemState::ACTIVE);
}

#[test]
fn active_rect_is_absolute() {
    let mut ui: Ui = Context::create_context();
    let root = ui.item("root");
    ui.set_size(root, 200, 200);
    ui.set_margins(root, 5, 6, 0, 0);
    let a = ui.item("a");
    ui.set_size(a, 50, 50);
    ui.set_layout(a, LEFT | TOP);
    ui.set_margins(a, 10, 10, 0, 0);
    ui.append(root, a);
    ui.layout();
    assert_eq!(ui.get_rect(root), Rect { x: 5, y: 6, w: 200, h: 200 });
    frame(&mut ui, 20, 20, true);
    assert!(ui.is_active(a));
    assert_eq!(ui.get_active_rect(), Rect { x: 15, y: 16, w: 50, h: 50 });
    assert_eq!(ui.get_cursor_start(), Vec2 { x: 20, y: 20 });
}

#[test]
fn press_on_nothing_activates_nothing() {
    let (mut ui, _root, a) = one_button();
    assert_eq!(frame(&mut ui, 500, 500, true), vec![]);
    assert!(!ui.is_active(a));
    assert_eq!(frame(&mut ui, 20, 20, false), vec![]);
}

#[test]
fn fill_siblings_share_slack() {
    let mut ui: Ui = Context::create_context();
    let root = ui.item("row");
    ui.set_size(root, 200, 30);
    let a = ui.item("fixed");
    let b = ui.item("dyn1");
    let c = ui.item("dyn2");
    ui.append(root, a);
    ui.append(root, b);
    ui.append(root, c);
    ui.set_size(a, 40, 0);
    for it in [a, b, c] {
        ui.set_layout(it, HFILL);
    }
    ui.set_rel_to_right(a, b);
    ui.set_rel_to_left(b, a);
    ui.set_rel_to_right(b, c);
    ui.set_rel_to_left(c, b);
    ui.layout();
    assert_eq!(ui.get_rect(a).w, 40);
    assert_eq!(ui.get_rect(b).w, 80);
    assert_eq!(ui.get_rect(c).w, 80);
    assert_eq!(ui.get_rect(a).x, 0);
    assert_eq!(ui.get_rect(b).x, 40);
    assert_eq!(ui.get_rect(c).x, 120);
    assert_eq!(ui.get_rect(root).w, 200);
}

#[test]
fn unsized_parent_takes_best_chain() {
    let mut ui: Ui = Context::create_context();
    let root = ui.item("root");
    let a = ui.item("a");
    let b = ui.item("b");
    let lone = ui.item("lone");
    ui.append(root, a);
    ui.append(root, b);
    ui.append(root, lone);
    ui.set_size(a, 30, 10);
    ui.set_margins(a, 5, 0, 5, 0);
    ui.set_layout(a, LEFT);
    ui.set_size(b, 20, 12);
    ui.set_layout(b, LEFT);
    ui.set_rel_to_left(b, a);
    ui.set_size(lone, 55, 4);
    ui.layout();
    // chain a-b: (30 + 5 + 5) + 20 = 60 wide; lone: 55 wide
    assert_eq!(ui.get_rect(root).w, 60);
    assert_eq!(ui.get_rect(root).h, 12);
    assert_eq!(ui.get_rect(a).x, 5);
    assert_eq!(ui.get_rect(b).x, 40);
    // centred: (60 - 55) / 2
    assert_eq!(ui.get_rect(lone).x, 2);
}

#[test]
fn fixed_size_wins_over_children() {
    let mut ui: Ui = Context::create_context();
    let root = ui.item("root");
    ui.set_size(root, 10, 10);
    let big = ui.item("big");
    ui.set_size(big, 300, 300);
    ui.append(root, big);
    ui.layout();
    assert_eq!(ui.get_rect(root), Rect { x: 0, y: 0, w: 10, h: 10 });
    assert_eq!(ui.get_rect(big).w, 300);
}

#[test]
fn right_anchor_and_fill_without_neighbours() {
    let mut ui: Ui = Context::create_context();
    let root = ui.item("root");
    ui.set_size(root, 100, 80);
    let r = ui.item("r");
    ui.set_size(r, 20, 10);
    ui.set_layout(r, RIGHT | DOWN);
    ui.set_margins(r, 0, 0, 3, 4);
    ui.append(root, r);
    let f = ui.item("f");
    ui.set_layout(f, FILL);
    ui.set_margins(f, 1, 2, 3, 4);
    ui.append(root, f);
    ui.layout();
    assert_eq!(ui.get_rect(r), Rect { x: 77, y: 66, w: 20, h: 10 });
    assert_eq!(ui.get_rect(f), Rect { x: 1, y: 2, w: 96, h: 74 });
}

#[test]
fn layout_twice_gives_same_rects() {
    let mut ui: Ui = Context::create_context();
    let root = ui.item("row");
    ui.set_size(root, 200, 30);
    let a = ui.item("a");
    let b = ui.item("b");
    ui.append(root, a);
    ui.append(root, b);
    ui.set_layout(a, HFILL);
    ui.set_layout(b, HFILL);
    ui.set_rel_to_right(a, b);
    ui.set_rel_to_left(b, a);
    ui.layout();
    let first = (ui.get_rect(a), ui.get_rect(b));
    ui.layout();
    assert_eq!((ui.get_rect(a), ui.get_rect(b)), first);
}

#[test]
fn hit_test_finds_innermost_leaf() {
    let mut ui: Ui = Context::create_context();
    let root = ui.item("root");
    ui.set_size(root, 100, 100);
    let panel = ui.item("panel");
    ui.set_size(panel, 60, 60);
    ui.set_layout(panel, LEFT | TOP);
    ui.set_margins(panel, 20, 20, 0, 0);
    ui.append(root, panel);
    let leaf = ui.item("leaf");
    ui.set_size(leaf, 10, 10);
    ui.set_layout(leaf, LEFT | TOP);
    ui.set_margins(leaf, 5, 5, 0, 0);
    ui.append(panel, leaf);
    ui.layout();
    assert_eq!(ui.find_item(root, 27, 27), leaf);
    assert_eq!(ui.find_item(root, 40, 40), panel);
    assert_eq!(ui.find_item(root, 5, 5), root);
    assert_eq!(ui.find_item(root, 150, 5), Item::none());
    assert_eq!(ui.find_item(root, -1, 5), Item::none());
    assert_eq!(ui.get_abs_rect(leaf), Rect { x: 25, y: 25, w: 10, h: 10 });
}

#[test]
fn first_sibling_wins_on_overlap() {
    let mut ui: Ui = Context::create_context();
    let root = ui.item("root");
    ui.set_size(root, 100, 100);
    let a = ui.item("a");
    let b = ui.item("b");
    for it in [a, b] {
        ui.set_size(it, 50, 50);
        ui.set_layout(it, LEFT | TOP);
        ui.append(root, it);
    }
    ui.layout();
    assert_eq!(ui.find_item(root, 10, 10), a);
}

#[test]
fn frozen_subtree_is_never_hot_or_active() {
    let mut ui: Ui = Context::create_context();
    let root = ui.item("root");
    ui.set_size(root, 100, 100);
    let panel = ui.item("panel");
    ui.set_size(panel, 60, 60);
    ui.set_layout(panel, LEFT | TOP);
    ui.append(root, panel);
    let leaf = ui.item("leaf");
    ui.set_size(leaf, 10, 10);
    ui.set_layout(leaf, LEFT | TOP);
    ui.append(panel, leaf);
    ui.set_handler(leaf, Some(1), ALL_BUTTON0);
    ui.set_frozen(panel, true);
    ui.layout();
    assert_eq!(ui.find_item(root, 5, 5), root);
    assert_eq!(frame(&mut ui, 5, 5, false), vec![]);
    assert!(ui.is_hot(root));
    assert!(!ui.is_hot(leaf));
    assert_eq!(frame(&mut ui, 5, 5, true), vec![]);
    assert!(ui.is_active(root));
    assert!(!ui.is_active(leaf));
    assert_eq!(ui.get_state(panel), ItemState::FROZEN);
}

#[test]
fn state_precedence() {
    let (mut ui, root, a) = one_button();
    assert_eq!(ui.get_state(a), ItemState::COLD);
    frame(&mut ui, 20, 20, false);
    assert_eq!(ui.get_state(a), ItemState::HOT);
    assert_eq!(ui.get_state(root), ItemState::COLD);
    frame(&mut ui, 20, 20, true);
    assert_eq!(ui.get_state(a), ItemState::ACTIVE);
    ui.set_frozen(a, true);
    assert_eq!(ui.get_state(a), ItemState::FROZEN);
}

#[test]
fn active_without_capture_flags_is_cold_when_not_hot() {
    let (mut ui, _root, a) = one_button();
    ui.set_handler(a, Some(7), BUTTON0_HOT_UP);
    frame(&mut ui, 20, 20, true);
    assert!(ui.is_active(a));
    assert_eq!(ui.get_state(a), ItemState::COLD);
    frame(&mut ui, 21, 21, true);
    assert_eq!(ui.get_state(a), ItemState::ACTIVE);
}

#[test]
fn append_links_siblings_and_notifies_parent() {
    let mut ui: Ui = Context::create_context();
    let root = ui.item("root");
    ui.set_handler(root, Some(3), APPEND);
    let a = ui.item("a");
    let b = ui.item("b");
    let c = ui.item("c");
    assert_eq!(ui.append(root, a), a);
    ui.append(root, b);
    ui.append(root, c);
    assert_eq!(
        ui.take_notifications(),
        vec![note(root, APPEND), note(root, APPEND), note(root, APPEND)]
    );
    assert_eq!(ui.get_child_count(root), 3);
    assert_eq!(ui.first_child(root), a);
    assert_eq!(ui.last_child(root), c);
    assert_eq!(ui.next_sibling(a), b);
    assert_eq!(ui.next_sibling(c), Item::none());
    assert_eq!(ui.prev_sibling(b), a);
    assert_eq!(ui.prev_sibling(a), Item::none());
    assert_eq!(ui.parent(b), root);
    assert_eq!(ui.parent(root), Item::none());
    assert_eq!(ui.get_child_id(c), 2);
    assert_eq!(ui.get_handler(root), Some(3));
    assert_eq!(ui.get_handler_flags(root), APPEND);
}

#[test]
fn notification_needs_flag_and_handler() {
    let mut ui: Ui = Context::create_context();
    let root = ui.item("root");
    let a = ui.item("a");
    ui.append(root, a);
    assert_eq!(ui.take_notifications(), vec![]);
    ui.set_handler(root, None, APPEND);
    let b = ui.item("b");
    ui.append(root, b);
    assert_eq!(ui.take_notifications(), vec![]);
    ui.set_handler(a, Some(1), BUTTON0_DOWN);
    ui.notify_item(a, BUTTON0_UP);
    ui.notify_item(a, BUTTON0_DOWN);
    assert_eq!(ui.take_notifications(), vec![note(a, BUTTON0_DOWN)]);
}

#[test]
fn clear_drops_every_item() {
    let (mut ui, _root, a) = one_button();
    frame(&mut ui, 20, 20, false);
    assert!(ui.is_hot(a));
    ui.clear();
    assert_eq!(ui.len(), 0);
    assert_eq!(ui.root(), Item::none());
    assert!(!ui.is_hot(a));
    assert!(!ui.is_active(a));
    let again = ui.item("again");
    assert_eq!(again, Item::wrap(0));
}

#[test]
fn tags_carry_hot_item_across_rebuild() {
    let (mut ui, _root, a) = one_button();
    ui.set_tag(a, 42);
    assert_eq!(ui.get_tag(a), 42);
    frame(&mut ui, 20, 20, false);
    assert!(ui.is_hot(a));
    ui.clear();
    let root = ui.item("root");
    let a2 = ui.item("a");
    ui.append(root, a2);
    assert!(!ui.is_hot(a2));
    ui.set_tag(a2, 42);
    assert!(ui.is_hot(a2));
    ui.set_tag(root, NO_TAG);
    assert!(!ui.is_hot(root));
}

#[test]
fn buttons_and_cursor() {
    let mut ui: Ui = Context::create_context();
    let root = ui.item("root");
    ui.set_size(root, 10, 10);
    ui.set_button(3, true);
    assert!(ui.get_button(3));
    assert!(ui.button_pressed(3));
    assert!(!ui.get_last_button(3));
    ui.set_cursor(4, 5);
    assert_eq!(ui.get_cursor(), Vec2 { x: 4, y: 5 });
    assert_eq!(ui.get_cursor_delta(), Vec2 { x: 4, y: 5 });
    ui.process();
    assert!(ui.get_last_button(3));
    assert!(!ui.button_pressed(3));
    ui.set_button(3, false);
    assert!(ui.button_released(3));
    ui.set_cursor(1, 9);
    assert_eq!(ui.get_cursor_delta(), Vec2 { x: -3, y: 4 });
    assert_eq!(ui.get_cursor_start(), Vec2 { x: 4, y: 5 });
    assert_eq!(ui.get_cursor_start_delta(), Vec2 { x: -3, y: 4 });
}

#[test]
fn setters_and_getters() {
    let mut ui: Ui = Context::create_context();
    let root = ui.item("root");
    let a = ui.item("a");
    ui.append(root, a);
    ui.set_size(a, 12, 34);
    assert_eq!((ui.get_width(a), ui.get_height(a)), (12, 34));
    ui.set_layout(a, HFILL | TOP);
    assert_eq!(ui.get_layout(a), 7);
    ui.set_margins(a, 1, 2, 3, 4);
    assert_eq!(
        (ui.get_margin_left(a), ui.get_margin_top(a), ui.get_margin_right(a), ui.get_margin_down(a)),
        (1, 2, 3, 4)
    );
    let b = ui.item("b");
    ui.append(root, b);
    ui.set_rel_to_left(a, b);
    ui.set_rel_to_top(a, b);
    ui.set_rel_to_right(a, Item::none());
    ui.set_rel_to_down(a, b);
    assert_eq!(ui.get_rel_to_left(a), b);
    assert_eq!(ui.get_rel_to_top(a), b);
    assert_eq!(ui.get_rel_to_right(a), Item::none());
    assert_eq!(ui.get_rel_to_down(a), b);
    assert_eq!(*ui.get_widget(b), "b");
    ui.set_widget(b, "bee");
    assert_eq!(*ui.get_widget(b), "bee");
}

#[test]
fn empty_context_still_advances_input() {
    let mut ui: Ui = Context::create_context();
    ui.set_button(0, true);
    ui.set_cursor(3, 4);
    assert!(ui.button_pressed(0));
    ui.process();
    assert!(!ui.button_pressed(0));
    assert!(ui.get_last_button(0));
    assert_eq!(ui.get_cursor_start(), Vec2 { x: 3, y: 4 });
    ui.set_cursor(5, 9);
    assert_eq!(ui.get_cursor_start_delta(), Vec2 { x: 2, y: 5 });
    ui.set_button(0, false);
    assert!(ui.button_released(0));
    ui.process();
    assert!(!ui.get_last_button(0));
}
