use oui::geom::{Rect, Vec2};
use oui::iconsheet::{icon_id, no_icon, ICONID};
use oui::item::Item;
use oui::util::{max, min};

#[test]
fn icon_ids_pack_column_and_row() {
    assert_eq!(ICONID(0, 0), 0);
    assert_eq!(ICONID(3, 2), 515);
    assert_eq!(ICONID(255, 255), 65535);
    assert_eq!(icon_id(5, 29), 7429);
    assert_eq!(no_icon(), -1);
}

#[test]
fn min_and_max() {
    assert_eq!(min(3, -4), -4);
    assert_eq!(min(-4, 3), -4);
    assert_eq!(max(3, -4), 3);
    assert_eq!(max(7, 7), 7);
    assert_eq!(max(i32::MIN, i32::MAX), i32::MAX);
}

#[test]
fn item_handles() {
    let it = Item::wrap(4);
    assert_eq!(it.itemid, 4);
    assert!(it.valid());
    assert!(!it.invalid());
    let none = Item::none();
    assert_eq!(none.itemid, -1);
    assert!(!none.valid());
    assert!(none.invalid());
}

#[test]
fn zero_values() {
    assert_eq!(Vec2::zero(), Vec2 { x: 0, y: 0 });
    assert_eq!(Rect::zero(), Rect { x: 0, y: 0, w: 0, h: 0 });
    let mut r = Rect::zero();
    r.set_pos(1, 7);
    r.set_size(0, 9);
    assert_eq!(r, Rect { x: 0, y: 7, w: 9, h: 0 });
    assert_eq!((r.get_pos(1), r.get_size(0)), (7, 9));
    let mut v = Vec2::zero();
    v.set(1, -2);
    assert_eq!((v.get(0), v.get(1)), (0, -2));
}
