use menugen::menuitem::Builder;
use std::sync::Arc;

#[test]
fn sort_weight() {
    let mut bldr = Builder::<()>::new("test-1", "Second");
    bldr.weight(50);
    let mi1 = bldr.build();

    let mut bldr = Builder::new("test-2", "First");
    bldr.weight(10);
    let mi2 = bldr.build();

    let mut menuitems = vec![Arc::new(mi1), Arc::new(mi2)];

    assert_eq!(menuitems.len(), 2);
    assert_eq!(menuitems[0].title(), "Second");
    assert_eq!(menuitems[1].title(), "First");

    menuitems.sort_by(|a, b| a.order_cmp(b));

    assert_eq!(menuitems.len(), 2);
    assert_eq!(menuitems[0].title(), "First");
    assert_eq!(menuitems[1].title(), "Second");
}

#[test]
fn sort_weight_title() {
    let bldr = Builder::<()>::new("test-1", "A menu item");
    let mi1 = bldr.build();

    let bldr = Builder::new("test-2", "B menu item");
    let mi2 = bldr.build();

    let mut menuitems = vec![Arc::new(mi2), Arc::new(mi1)];

    assert_eq!(menuitems.len(), 2);
    assert_eq!(menuitems[0].title(), "B menu item");
    assert_eq!(menuitems[1].title(), "A menu item");

    menuitems.sort_by(|a, b| a.order_cmp(b));

    assert_eq!(menuitems.len(), 2);
    assert_eq!(menuitems[0].title(), "A menu item");
    assert_eq!(menuitems[1].title(), "B menu item");
}
