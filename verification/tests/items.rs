use menugen::menuitem::{Builder, MenuItem, DEFAULT_WEIGHT};
use menugen::{menu, MenuBuilder, MenuItemBuilder};
use std::cmp::Ordering;
use std::collections::hash_map::DefaultHasher;
use std::hash::{Hash, Hasher};

#[derive(Clone, Default, Debug, PartialEq)]
struct Tag {
    n: u32,
}

fn hash_of<T: Hash>(value: &T) -> u64 {
    let mut h = DefaultHasher::new();
    value.hash(&mut h);
    h.finish()
}

#[test]
fn declaration_defaults() {
    let item = Builder::<Tag>::new("id-1", "Title one").build();
    assert_eq!(item.id(), "id-1");
    assert_eq!(item.title(), "Title one");
    assert_eq!(*item.appctx(), Tag { n: 0 });
    assert_eq!(item.children().len(), 0);
}

#[test]
fn default_weight_is_one_hundred() {
    assert_eq!(DEFAULT_WEIGHT, 100);
    let plain = Builder::<()>::new("p", "Same").build();
    let mut b = Builder::<()>::new("q", "Same");
    b.weight(100);
    let explicit = b.build();
    assert_eq!(plain.order_cmp(&explicit), Ordering::Equal);

    let mut b = Builder::<()>::new("r", "Same");
    b.weight(99);
    let lighter = b.build();
    let mut b = Builder::<()>::new("s", "Same");
    b.weight(101);
    let heavier = b.build();
    assert_eq!(lighter.order_cmp(&plain), Ordering::Less);
    assert_eq!(plain.order_cmp(&heavier), Ordering::Less);
}

#[test]
fn new_ctx_keeps_the_payload() {
    let item = Builder::new_ctx("id", "Title", Tag { n: 42 }).build();
    assert_eq!(*item.appctx(), Tag { n: 42 });
    let plain = Builder::<Tag>::new("p", "Same").build();
    let with_ctx = Builder::new_ctx("q", "Same", Tag { n: 1 }).build();
    assert_eq!(plain.order_cmp(&with_ctx), Ordering::Equal);
}

#[test]
fn setters_chain_and_last_one_stands() {
    let mut b = Builder::<()>::new("kid", "Kid");
    b.weight(7).parent("first").weight(9).parent("second");
    let mut mb = menu::Builder::<()>::new();
    mb.add(b);
    mb.add(Builder::new("first", "First"));
    mb.add(Builder::new("second", "Second"));
    let menu = mb.build();
    let roots = menu.get_rootitems();
    assert_eq!(roots.len(), 2);
    assert_eq!(roots[0].id(), "first");
    assert_eq!(roots[0].children().len(), 0);
    assert_eq!(roots[1].id(), "second");
    assert_eq!(roots[1].children().len(), 1);
    assert_eq!(roots[1].children()[0].id(), "kid");
}

#[test]
fn is_parent_is_true_for_items_without_children() {
    let mut mb = MenuBuilder::<()>::new();
    mb.add(MenuItemBuilder::new("top", "Top"));
    let mut kid = MenuItemBuilder::new("kid", "Kid");
    kid.parent("top");
    mb.add(kid);
    let menu = mb.build();
    let top = &menu.get_rootitems()[0];
    assert_eq!(top.is_parent(), false);
    assert_eq!(top.children()[0].is_parent(), true);
}

#[test]
fn default_declaration_is_empty() {
    let item = Builder::<Tag>::default().build();
    assert_eq!(item.id(), "");
    assert_eq!(item.title(), "");
    assert_eq!(*item.appctx(), Tag { n: 0 });
    let mut b = Builder::<Tag>::new("z", "");
    b.weight(0);
    assert_eq!(item.order_cmp(&b.build()), Ordering::Equal);
}

#[test]
fn default_item_is_empty() {
    let item = MenuItem::<Tag>::default();
    assert_eq!(item.id(), "");
    assert_eq!(item.title(), "");
    assert_eq!(item.children().len(), 0);
    assert_eq!(*item.appctx(), Tag { n: 0 });
    let mut b = Builder::<Tag>::new("z", "");
    b.weight(0);
    assert_eq!(item.order_cmp(&b.build()), Ordering::Equal);
}

#[test]
fn clone_copies_the_whole_tree() {
    let mut mb = menu::Builder::<Tag>::new();
    mb.add(Builder::new_ctx("top", "Top", Tag { n: 1 }));
    let mut b = Builder::new_ctx("mid", "Mid", Tag { n: 2 });
    b.parent("top").weight(5);
    mb.add(b);
    let mut b = Builder::new_ctx("leaf", "Leaf", Tag { n: 3 });
    b.parent("mid");
    mb.add(b);
    let mut b = Builder::new_ctx("other", "Other", Tag { n: 4 });
    b.parent("top").weight(1);
    mb.add(b);
    let menu = mb.build();

    let copy = menu.get_rootitems()[0].clone();
    assert_eq!(copy.id(), "top");
    assert_eq!(copy.title(), "Top");
    assert_eq!(*copy.appctx(), Tag { n: 1 });
    assert_eq!(copy.children().len(), 2);
    assert_eq!(copy.children()[0].id(), "other");
    assert_eq!(*copy.children()[0].appctx(), Tag { n: 4 });
    assert_eq!(copy.children()[1].id(), "mid");
    assert_eq!(copy.children()[1].order_cmp(&menu.get_rootitems()[0].children()[1]), Ordering::Equal);
    assert_eq!(copy.children()[1].children().len(), 1);
    assert_eq!(copy.children()[1].children()[0].id(), "leaf");
    assert_eq!(copy.children()[1].children()[0].title(), "Leaf");
    assert_eq!(*copy.children()[1].children()[0].appctx(), Tag { n: 3 });
}

#[test]
fn items_hash_by_identifier() {
    let a = Builder::<Tag>::new_ctx("same-id", "One title", Tag { n: 1 });
    let mut b = Builder::<Tag>::new_ctx("same-id", "Another title", Tag { n: 2 });
    b.weight(5).parent("somewhere");
    let c = Builder::<Tag>::new("other-id", "One title");
    assert_eq!(hash_of(&a), hash_of(&b));
    assert_eq!(hash_of(&a), hash_of(&String::from("same-id")));
    assert_ne!(hash_of(&a), hash_of(&c));

    let a = a.build();
    let b = b.build();
    let c = c.build();
    assert_eq!(hash_of(&a), hash_of(&b));
    assert_eq!(hash_of(&a), hash_of(&String::from("same-id")));
    assert_ne!(hash_of(&a), hash_of(&c));
}

#[test]
fn items_can_be_shown_for_debugging() {
    let item = Builder::<Tag>::new_ctx("dbg", "Debug me", Tag { n: 9 }).build();
    let text = format!("{:?}", item);
    assert!(text.contains("dbg"));
    assert!(text.contains("Debug me"));
}

#[test]
fn event_is_reachable_by_its_short_path() {
    let mut mb = menu::Builder::<Tag>::new();
    mb.add(Builder::new("only", "Only"));
    let menu = mb.build();
    let first = menu.iter_hier().next();
    assert!(matches!(first, Some(menugen::iter::Event::MenuItem(mi)) if mi.id() == "only"));
}
