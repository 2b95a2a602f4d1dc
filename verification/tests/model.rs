use menugen::menu::{self, Menu};
use menugen::menuitem::{Builder, MenuItem};
use menugen::reciter::{Event, MenuIter};
use std::collections::HashMap;

#[derive(Clone, Default)]
struct Mark {
    on: bool,
}

#[derive(Clone)]
struct Plain {
    id: String,
    title: String,
    weight: isize,
    parent: Option<String>,
    on: bool,
}

struct Lcg(u64);

impl Lcg {
    fn next(&mut self, below: u64) -> u64 {
        self.0 = self.0.wrapping_mul(6364136223846793005).wrapping_add(1442695040888963407);
        (self.0 >> 33) % below
    }
}

fn random_declarations(rng: &mut Lcg, count: usize) -> Vec<Plain> {
    let mut out = Vec::new();
    for _ in 0..count {
        let id = format!("n{}", rng.next(12));
        let title = format!("t{}", rng.next(4));
        let weight = rng.next(3) as isize - 1;
        let parent = match rng.next(4) {
            0 => None,
            _ => Some(format!("n{}", rng.next(14))),
        };
        out.push(Plain { id, title, weight, parent, on: rng.next(3) != 0 });
    }
    out
}

fn build_menu(decls: &Vec<Plain>) -> Menu<Mark> {
    let mut mb = menu::Builder::<Mark>::new();
    for d in decls {
        let mut b = Builder::new_ctx(&d.id, &d.title, Mark { on: d.on });
        b.weight(d.weight);
        if let Some(p) = &d.parent {
            b.parent(p);
        }
        mb.add(b);
    }
    mb.build()
}

/// The level below `parent`, as lines "depth id title weight", from the
/// declarations alone.
fn expected_level(
    last: &HashMap<String, Plain>,
    parent: Option<&str>,
    depth: usize,
    out: &mut Vec<String>,
) {
    let mut level: Vec<&Plain> = last.values().filter(|d| d.parent.as_deref() == parent).collect();
    level.sort_by(|a, b| {
        (a.weight, a.title.as_str(), a.id.as_str()).cmp(&(b.weight, b.title.as_str(), b.id.as_str()))
    });
    for d in level {
        out.push(format!("{} {} {} {}", depth, d.id, d.title, d.weight));
        expected_level(last, Some(d.id.as_str()), depth + 1, out);
    }
}

fn actual_level(items: &Vec<MenuItem<Mark>>, last: &HashMap<String, Plain>, depth: usize, out: &mut Vec<String>) {
    // items that tie in weight and title may come in any order: compare them by identifier
    let mut level: Vec<&MenuItem<Mark>> = items.iter().collect();
    for w in level.windows(2) {
        assert!(w[0].order_cmp(w[1]) != std::cmp::Ordering::Greater);
    }
    level.sort_by(|a, b| {
        let wa = last[a.id()].weight;
        let wb = last[b.id()].weight;
        (wa, a.title(), a.id()).cmp(&(wb, b.title(), b.id()))
    });
    for i in level {
        out.push(format!("{} {} {} {}", depth, i.id(), i.title(), last[i.id()].weight));
        assert_eq!(i.appctx().on, last[i.id()].on);
        actual_level(i.children(), last, depth + 1, out);
    }
}

fn expected_events(items: &Vec<MenuItem<Mark>>, scoped: bool, out: &mut Vec<String>) {
    let mut body = Vec::new();
    for i in items {
        if i.appctx().on {
            body.push(i.id().to_string());
            expected_events(i.children(), true, &mut body);
        }
    }
    if scoped && !body.is_empty() {
        out.push(String::from("<"));
        out.append(&mut body);
        out.push(String::from(">"));
    } else {
        out.append(&mut body);
    }
}

fn actual_events<F: Fn(&MenuItem<Mark>) -> bool>(it: MenuIter<Mark, F>) -> Vec<String> {
    it.map(|ev| match ev {
        Event::EnterScope => String::from("<"),
        Event::LeaveScope => String::from(">"),
        Event::MenuItem(mi) => mi.id().to_string(),
    })
    .collect()
}

#[test]
fn assembled_menus_match_the_declarations() {
    let mut rng = Lcg(20240229);
    for round in 0..300 {
        let decls = random_declarations(&mut rng, 1 + round % 25);
        let mut last: HashMap<String, Plain> = HashMap::new();
        for d in &decls {
            last.insert(d.id.clone(), d.clone());
        }
        let menu = build_menu(&decls);

        let mut expected = Vec::new();
        expected_level(&last, None, 0, &mut expected);
        let mut actual = Vec::new();
        actual_level(menu.get_rootitems(), &last, 0, &mut actual);
        assert_eq!(actual, expected);
    }
}

#[test]
fn walks_match_the_menu() {
    let mut rng = Lcg(77);
    for round in 0..300 {
        let decls = random_declarations(&mut rng, 1 + round % 25);
        let menu = build_menu(&decls);

        let mut expected = Vec::new();
        expected_events(menu.get_rootitems(), false, &mut expected);
        let plain = actual_events(MenuIter::new(&menu, |mi: &MenuItem<Mark>| mi.appctx().on));
        assert_eq!(plain, expected);

        let mut expected = Vec::new();
        expected_events(menu.get_rootitems(), true, &mut expected);
        let mut it = MenuIter::new(&menu, |mi: &MenuItem<Mark>| mi.appctx().on);
        it.root_scope();
        assert_eq!(actual_events(it), expected);
    }
}
