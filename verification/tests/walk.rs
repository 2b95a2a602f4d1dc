use menugen::menuitem::{Builder, MenuItem};
use menugen::menu::{self, Menu};
use menugen::reciter::{Event, MenuIter};
use menugen::flatiter;

#[derive(Clone, Default)]
struct Context {
    enabled: bool,
}

fn decl(id: &str, weight: isize, parent: Option<&str>, enabled: bool) -> Builder<Context> {
    let mut b = Builder::new_ctx(id, id, Context { enabled });
    b.weight(weight);
    if let Some(p) = parent {
        b.parent(p);
    }
    b
}

/// root
///   a (off)
///     a1
///   b
///     b1 (off)
///     b2
///       b2x
///   c
///     c1 (off)
fn sample() -> Menu<Context> {
    let mut mb = menu::Builder::<Context>::new();
    mb.add(decl("a", 1, None, false));
    mb.add(decl("a1", 1, Some("a"), true));
    mb.add(decl("b", 2, None, true));
    mb.add(decl("b1", 1, Some("b"), false));
    mb.add(decl("b2", 2, Some("b"), true));
    mb.add(decl("b2x", 1, Some("b2"), true));
    mb.add(decl("c", 3, None, true));
    mb.add(decl("c1", 1, Some("c"), false));
    mb.build()
}

fn trace<C, F>(it: MenuIter<C, F>) -> Vec<String>
where
    C: Clone + Default,
    F: Fn(&MenuItem<C>) -> bool,
{
    let mut out = Vec::new();
    for ev in it {
        match ev {
            Event::EnterScope => out.push(String::from("<")),
            Event::LeaveScope => out.push(String::from(">")),
            Event::MenuItem(mi) => out.push(mi.id().to_string()),
        }
    }
    out
}

fn balanced(events: &Vec<String>) -> bool {
    let mut depth: i64 = 0;
    for e in events {
        if e == "<" {
            depth += 1;
        }
        if e == ">" {
            depth -= 1;
        }
        if depth < 0 {
            return false;
        }
    }
    depth == 0
}

#[test]
fn walk_reports_items_before_their_children() {
    let menu = sample();
    let got = trace(menu.iter_hier());
    assert_eq!(
        got,
        vec!["a", "<", "a1", ">", "b", "<", "b1", "b2", "<", "b2x", ">", ">", "c", "<", "c1", ">"]
    );
}

#[test]
fn walk_with_root_scope_wraps_the_root_level() {
    let menu = sample();
    let mut it = menu.iter_hier();
    it.root_scope();
    let got = trace(it);
    assert_eq!(
        got,
        vec![
            "<", "a", "<", "a1", ">", "b", "<", "b1", "b2", "<", "b2x", ">", ">", "c", "<", "c1",
            ">", ">"
        ]
    );
}

#[test]
fn root_scope_toggle_on_parent_and_child() {
    let mut mb = menu::Builder::<()>::new();
    mb.add(Builder::new("test-1", "Test A"));
    let mut kid = Builder::new("test-1-1", "Test A Sub");
    kid.parent("test-1");
    mb.add(kid);
    let menu = mb.build();

    let plain = trace(MenuIter::new(&menu, |_mi: &MenuItem<()>| true));
    assert_eq!(plain, vec!["test-1", "<", "test-1-1", ">"]);

    let mut it = MenuIter::new(&menu, |_mi: &MenuItem<()>| true);
    it.root_scope();
    let scoped = trace(it);
    assert_eq!(scoped, vec!["<", "test-1", "<", "test-1-1", ">", ">"]);
}

#[test]
fn filtered_walk_skips_rejected_items_and_what_is_below() {
    let menu = sample();
    let it = MenuIter::new(&menu, |mi: &MenuItem<Context>| mi.appctx().enabled);
    let got = trace(it);
    assert_eq!(got, vec!["b", "<", "b2", "<", "b2x", ">", ">", "c"]);
}

#[test]
fn filtered_walk_with_root_scope() {
    let menu = sample();
    let mut it = MenuIter::new(&menu, |mi: &MenuItem<Context>| mi.appctx().enabled);
    it.root_scope();
    let got = trace(it);
    assert_eq!(got, vec!["<", "b", "<", "b2", "<", "b2x", ">", ">", "c", ">"]);
}

#[test]
fn level_without_visible_item_gives_no_scope() {
    let menu = sample();
    let it = MenuIter::new(&menu, |mi: &MenuItem<Context>| mi.id() == "c");
    assert_eq!(trace(it), vec!["c"]);
    let it = MenuIter::new(&menu, |mi: &MenuItem<Context>| mi.id() == "b" || mi.id() == "b1");
    assert_eq!(trace(it), vec!["b", "<", "b1", ">"]);
}

#[test]
fn rejecting_everything_gives_no_event() {
    let menu = sample();
    let it = MenuIter::new(&menu, |_mi: &MenuItem<Context>| false);
    assert_eq!(trace(it).len(), 0);

    let mut it = MenuIter::new(&menu, |_mi: &MenuItem<Context>| false);
    it.root_scope();
    assert_eq!(trace(it).len(), 0);
}

#[test]
fn empty_menu_gives_no_event_even_when_scoped() {
    let menu = menu::Builder::<Context>::new().build();
    assert_eq!(trace(menu.iter_hier()).len(), 0);
    let mut it = menu.iter_hier();
    it.root_scope();
    assert_eq!(trace(it).len(), 0);
}

#[test]
fn scopes_are_balanced_for_every_filter() {
    let menu = sample();
    let names = ["a", "a1", "b", "b1", "b2", "b2x", "c", "c1"];
    for mask in 0u32..256 {
        let keep = |mi: &MenuItem<Context>| {
            let at = names.iter().position(|n| *n == mi.id()).unwrap();
            mask & (1 << at) != 0
        };
        let plain = trace(MenuIter::new(&menu, keep));
        assert!(balanced(&plain));
        let mut it = MenuIter::new(&menu, keep);
        it.root_scope();
        let scoped = trace(it);
        assert!(balanced(&scoped));
        let enters = scoped.iter().filter(|e| *e == "<").count();
        let leaves = scoped.iter().filter(|e| *e == ">").count();
        assert_eq!(enters, leaves);
        for w in scoped.windows(2) {
            assert!(!(w[0] == "<" && w[1] == ">"));
        }
    }
}

#[test]
fn root_scope_after_the_first_event_changes_nothing() {
    let menu = sample();
    let mut it = menu.iter_hier();
    let first = it.next();
    assert!(matches!(first, Some(Event::MenuItem(mi)) if mi.id() == "a"));
    it.root_scope();
    let rest = trace(it);
    assert_eq!(
        rest,
        vec!["<", "a1", ">", "b", "<", "b1", "b2", "<", "b2x", ">", ">", "c", "<", "c1", ">"]
    );
}

#[test]
fn root_scope_twice_is_root_scope_once() {
    let menu = sample();
    let mut it = menu.iter_hier();
    it.root_scope().root_scope();
    let got = trace(it);
    assert_eq!(got.len(), 18);
    assert_eq!(got[0], "<");
    assert_eq!(got[17], ">");
    assert!(balanced(&got));
}

#[test]
fn walk_ends_and_stays_ended() {
    let mut mb = menu::Builder::<()>::new();
    mb.add(Builder::new("only", "Only"));
    let menu = mb.build();
    let mut it = menu.iter_hier();
    assert!(matches!(it.next(), Some(Event::MenuItem(_))));
    assert!(it.next().is_none());
    assert!(it.next().is_none());
    assert!(it.next().is_none());
}

#[test]
fn flat_walk_gives_the_roots_in_order() {
    let menu = sample();
    let got: Vec<String> = menu.iter_root().map(|mi| mi.id().to_string()).collect();
    assert_eq!(got, vec!["a", "b", "c"]);
}

#[test]
fn flat_walk_over_any_list() {
    let menu = sample();
    let b = &menu.get_rootitems()[1];
    let mut it = flatiter::MenuIter::new(b.children());
    assert_eq!(it.next().map(|mi| mi.id().to_string()), Some(String::from("b1")));
    assert_eq!(it.next().map(|mi| mi.id().to_string()), Some(String::from("b2")));
    assert!(it.next().is_none());
    assert!(it.next().is_none());
    assert_eq!(flatiter::MenuIter::new(menu.get_rootitems()[0].children()[0].children()).count(), 0);
}

#[test]
fn flat_walk_can_be_started_again() {
    let menu = sample();
    let first: Vec<String> = menu.iter_root().map(|mi| mi.id().to_string()).collect();
    let second: Vec<String> = menu.iter_root().map(|mi| mi.id().to_string()).collect();
    assert_eq!(first, second);
    let mut it = menu.iter_root();
    it.next();
    let rest: Vec<String> = it.map(|mi| mi.id().to_string()).collect();
    assert_eq!(rest, vec!["b", "c"]);
}

#[test]
fn filtered_walk_from_the_menu() {
    let menu = sample();
    let mut it = menu.filtiter_hier(|mi: &MenuItem<Context>| mi.appctx().enabled);
    it.root_scope();
    assert_eq!(trace(it), vec!["<", "b", "<", "b2", "<", "b2x", ">", ">", "c", ">"]);
    let it = menu.filtiter_hier(|mi: &MenuItem<Context>| mi.id() != "b2");
    assert_eq!(trace(it), vec!["a", "<", "a1", ">", "b", "<", "b1", ">", "c", "<", "c1", ">"]);
}

#[test]
fn hidden_parent_hides_its_visible_children() {
    let mut mb = menu::Builder::<Context>::new();
    mb.add(decl("lib", 100, None, true));
    mb.add(decl("lib-kb", 100, Some("lib"), true));
    mb.add(decl("lib-kb-arch", 100, Some("lib-kb"), true));
    mb.add(decl("lib-secret", 100, Some("lib"), false));
    mb.add(decl("lib-secret-secret", 100, Some("lib-secret"), true));
    let menu = mb.build();
    let mut it = menu.filtiter_hier(|mi: &MenuItem<Context>| mi.appctx().enabled == true);
    it.root_scope();
    assert_eq!(
        trace(it),
        vec!["<", "lib", "<", "lib-kb", "<", "lib-kb-arch", ">", ">", ">"]
    );
}

#[test]
fn filter_may_borrow_from_its_surroundings() {
    let menu = sample();
    let allowed = vec![String::from("b"), String::from("b2"), String::from("c1")];
    let it = menu.filtiter_hier(|mi: &MenuItem<Context>| allowed.iter().any(|a| a == mi.id()));
    assert_eq!(trace(it), vec!["b", "<", "b2", ">"]);
}
