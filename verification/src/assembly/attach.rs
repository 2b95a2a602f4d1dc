//! Handing the items to their parents, level by level, until the root
//! items hold the whole menu.

use vstd::prelude::*;
use vstd::seq_lib::group_to_multiset_ensures;
use crate::assembly::links::{
    bare, catalog, child_of, kid_lists, lemma_links, linked, occurs_before, occurs_from,
    sorted_out, up_of,
};
use crate::assembly::parents::parents_first;
use crate::menu::{built_from, declared_under, holds_children, lists_children};
use crate::menuitem::{Declaration, MenuItem};
use crate::order::{ordered, sort_items};

verus! {

/// The item of a declaration that nothing names as its parent is complete
/// as it is, without children.
pub(crate) proof fn lemma_bare_childless<C: Clone + Default>(
    ds: Seq<Declaration<C>>,
    decls: Map<Seq<char>, Declaration<C>>,
    roots: Seq<usize>,
    kids: Seq<Seq<usize>>,
    c: int,
    item: MenuItem<C>,
)
    requires
        catalog(ds, decls),
        sorted_out(ds, roots, kids, ds.len() as int),
        0 <= c < ds.len(),
        bare(ds[c], item),
        kids[c].len() == 0,
    ensures
        built_from(decls, item),
{
    let parent = Some(item@.id);
    assert forall|id: Seq<char>| #[trigger] declared_under(decls, parent, id) implies false by {
        let x = choose|x: int| 0 <= x < ds.len() && (#[trigger] ds[x]).id == id;
        assert(child_of(ds, x as usize as int, c));
        assert(kids[c].contains(x as usize));
    }
    assert(holds_children(decls, parent, item@.children));
    assert(ordered(item@.children));
    assert(lists_children(decls, parent, item@.children));
}

/// The items taken from the places that `which` lists hold the level below
/// `parent`, where `which` lists exactly the places of the declarations
/// whose parent is `parent` and every item taken is complete.
pub(crate) proof fn lemma_level_held<C: Clone + Default>(
    ds: Seq<Declaration<C>>,
    decls: Map<Seq<char>, Declaration<C>>,
    parent: Option<Seq<char>>,
    which: Seq<usize>,
    taken: Seq<MenuItem<C>>,
)
    requires
        catalog(ds, decls),
        which.no_duplicates(),
        taken.len() == which.len(),
        forall|m: int|
            0 <= m < which.len() ==> (#[trigger] which[m]) < ds.len() && taken[m]@.id
                == ds[which[m] as int].id && built_from(decls, taken[m]),
        forall|x: usize|
            x < ds.len() ==> (ds[x as int].parent == parent <==> #[trigger] which.contains(x)),
    ensures
        holds_children(decls, parent, taken),
{
    assert forall|i: int| 0 <= i < taken.len() implies declared_under(
        decls,
        parent,
        (#[trigger] taken[i])@.id,
    ) && built_from(decls, taken[i]) by {
        assert(which.contains(which[i]));
        assert(decls[ds[which[i] as int].id] == ds[which[i] as int]);
    }
    assert forall|i: int, j: int| 0 <= i < j < taken.len() implies (#[trigger] taken[i])@.id != (
    #[trigger] taken[j])@.id by {
        let a = which[i] as int;
        let b = which[j] as int;
        assert(a != b);
        if a < b {
            assert(ds[a].id != ds[b].id);
        } else {
            assert(ds[b].id != ds[a].id);
        }
    }
    assert forall|id: Seq<char>| #[trigger] declared_under(decls, parent, id) implies exists|
        i: int,
    |
        0 <= i < taken.len() && (#[trigger] taken[i])@.id == id by {
        let x = choose|x: int| 0 <= x < ds.len() && (#[trigger] ds[x]).id == id;
        assert(which.contains(x as usize));
        let m = choose|m: int| 0 <= m < which.len() && which[m] == x as usize;
        assert(taken[m]@.id == id);
    }
}

/// A level that is held stays held when its items are put in another
/// order, and is listed when that order is the sibling order.
pub(crate) proof fn lemma_level_sorted<C: Clone + Default>(
    decls: Map<Seq<char>, Declaration<C>>,
    parent: Option<Seq<char>>,
    before: Seq<MenuItem<C>>,
    after: Seq<MenuItem<C>>,
)
    requires
        holds_children(decls, parent, before),
        after.to_multiset() == before.to_multiset(),
        ordered(after),
    ensures
        lists_children(decls, parent, after),
{
    broadcast use group_to_multiset_ensures;

    assert forall|i: int| 0 <= i < after.len() implies before.contains(#[trigger] after[i]) by {
        assert(after.contains(after[i]));
        assert(after.to_multiset().count(after[i]) > 0);
    }
    assert forall|i: int| 0 <= i < before.len() implies after.contains(#[trigger] before[i]) by {
        assert(before.contains(before[i]));
        assert(before.to_multiset().count(before[i]) > 0);
    }
    assert(before.no_duplicates()) by {
        assert forall|i: int, j: int|
            0 <= i < before.len() && 0 <= j < before.len() && i != j implies before[i]
            != before[j] by {
            if i < j {
                assert(before[i]@.id != before[j]@.id);
            } else {
                assert(before[j]@.id != before[i]@.id);
            }
        }
    }
    before.lemma_multiset_has_no_duplicates();
    after.lemma_multiset_has_no_duplicates_conv();
    assert forall|i: int| 0 <= i < after.len() implies declared_under(
        decls,
        parent,
        (#[trigger] after[i])@.id,
    ) && built_from(decls, after[i]) by {
        let w = choose|w: int| 0 <= w < before.len() && before[w] == after[i];
        assert(built_from(decls, before[w]));
    }
    assert forall|i: int, j: int| 0 <= i < j < after.len() implies (#[trigger] after[i])@.id != (
    #[trigger] after[j])@.id by {
        let a = choose|a: int| 0 <= a < before.len() && before[a] == after[i];
        let b = choose|b: int| 0 <= b < before.len() && before[b] == after[j];
        assert(after[i] != after[j]);
        if a < b {
            assert(before[a]@.id != before[b]@.id);
        } else {
            assert(before[b]@.id != before[a]@.id);
        }
    }
    assert forall|id: Seq<char>| #[trigger] declared_under(decls, parent, id) implies exists|
        i: int,
    |
        0 <= i < after.len() && (#[trigger] after[i])@.id == id by {
        let w = choose|w: int| 0 <= w < before.len() && (#[trigger] before[w])@.id == id;
        assert(after.contains(before[w]));
        let i = choose|i: int| 0 <= i < after.len() && after[i] == before[w];
        assert(after[i]@.id == id);
    }
}

/// Takes the items out of the places that `which` lists, in that order, and
/// leaves those places empty.
pub(crate) fn take_all<C: Clone + Default>(
    nodes: &mut Vec<Option<MenuItem<C>>>,
    which: &Vec<usize>,
) -> (taken: Vec<MenuItem<C>>)
    requires
        which@.no_duplicates(),
        forall|m: int|
            0 <= m < which@.len() ==> (#[trigger] which@[m]) < old(nodes)@.len() && old(
                nodes,
            )@[which@[m] as int] is Some,
    ensures
        taken@.len() == which@.len(),
        forall|m: int|
            0 <= m < which@.len() ==> old(nodes)@[which@[m] as int] == Some(#[trigger] taken@[m]),
        final(nodes)@.len() == old(nodes)@.len(),
        forall|i: int|
            0 <= i < old(nodes)@.len() ==> #[trigger] final(nodes)@[i] == (if which@.contains(
                i as usize,
            ) {
                None
            } else {
                old(nodes)@[i]
            }),
{
    let mut taken: Vec<MenuItem<C>> = Vec::new();
    let mut m: usize = 0;
    while m < which.len()
        invariant
            m <= which@.len(),
            which@.no_duplicates(),
            nodes@.len() == old(nodes)@.len(),
            taken@.len() == m,
            forall|k: int| 0 <= k < which@.len() ==> (#[trigger] which@[k]) < nodes@.len(),
            forall|k: int|
                0 <= k < m ==> old(nodes)@[which@[k] as int] == Some(#[trigger] taken@[k]),
            forall|i: int|
                0 <= i < nodes@.len() ==> #[trigger] nodes@[i] == (if occurs_before(
                    which@,
                    i as usize,
                    m as int,
                ) {
                    None
                } else {
                    old(nodes)@[i]
                }),
            forall|k: int|
                0 <= k < which@.len() ==> old(nodes)@[(#[trigger] which@[k]) as int] is Some,
        decreases which@.len() - m,
    {
        let c = which[m];
        let ghost nodes0 = nodes@;
        proof {
            assert(nodes@.len() == nodes.len());
            if occurs_before(which@, c, m as int) {
                let w = choose|w: int| 0 <= w < m && w < which@.len() && which@[w] == c;
                assert(which@[w] == which@[m as int]);
            }
            assert(nodes@[c as int] == old(nodes)@[c as int]);
        }
        match nodes[c].take() {
            Some(item) => {
                taken.push(item);
            },
            None => {},
        }
        proof {
            assert forall|i: int| 0 <= i < nodes@.len() implies #[trigger] nodes@[i] == (
            if occurs_before(which@, i as usize, m + 1) {
                None
            } else {
                old(nodes)@[i]
            }) by {
                if i == c {
                    assert(which@[m as int] == i as usize);
                } else {
                    assert(nodes@[i] == nodes0[i]);
                    if occurs_before(which@, i as usize, m + 1) {
                        let w = choose|w: int|
                            0 <= w < m + 1 && w < which@.len() && which@[w] == i as usize;
                        assert(which@[w] == i as usize);
                        assert(w < m);
                    }
                    if occurs_before(which@, i as usize, m as int) {
                        let w = choose|w: int|
                            0 <= w < m && w < which@.len() && which@[w] == i as usize;
                        assert(which@[w] == i as usize);
                    }
                }
            }
        }
        m = m + 1;
    }
    proof {
        assert(nodes@.len() == nodes.len());
        assert forall|i: int| 0 <= i < old(nodes)@.len() implies #[trigger] nodes@[i] == (
        if which@.contains(i as usize) {
            None
        } else {
            old(nodes)@[i]
        }) by {
            if which@.contains(i as usize) {
                let w = choose|w: int| 0 <= w < which@.len() && which@[w] == i as usize;
                assert(which@[w] == i as usize);
            }
            if occurs_before(which@, i as usize, m as int) {
                let w = choose|w: int| 0 <= w < m && w < which@.len() && which@[w] == i as usize;
                assert(which@[w] == i as usize);
            }
        }
    }
    taken
}

/// The item at place `i` has been handed to its parent: the parent stands
/// in `order` at place `k` or later, among those that have received their
/// children.
pub(crate) open spec fn gone(up: Seq<Option<usize>>, order: Seq<usize>, k: int, i: int) -> bool {
    up[i] is Some && occurs_from(order, up[i].unwrap(), k)
}

/// How place `i` stands when the parents from place `k` on in `order` have
/// received their children: empty if its item has been handed on; else it
/// holds the item of the declaration at `i`, complete if it has received
/// its children and without children if not.
pub(crate) open spec fn settled_at<C: Clone + Default>(
    ds: Seq<Declaration<C>>,
    decls: Map<Seq<char>, Declaration<C>>,
    order: Seq<usize>,
    k: int,
    nodes: Seq<Option<MenuItem<C>>>,
    i: int,
) -> bool {
    if gone(up_of(ds), order, k, i) {
        nodes[i] is None
    } else {
        &&& nodes[i] is Some
        &&& nodes[i].unwrap()@.id == ds[i].id
        &&& if occurs_from(order, i as usize, k) {
            built_from(decls, nodes[i].unwrap())
        } else {
            bare(ds[i], nodes[i].unwrap())
        }
    }
}

/// Every place stands as `settled_at` says.
pub(crate) open spec fn settled<C: Clone + Default>(
    ds: Seq<Declaration<C>>,
    decls: Map<Seq<char>, Declaration<C>>,
    order: Seq<usize>,
    k: int,
    nodes: Seq<Option<MenuItem<C>>>,
) -> bool {
    &&& nodes.len() == ds.len()
    &&& forall|i: int| 0 <= i < ds.len() ==> #[trigger] settled_at(ds, decls, order, k, nodes, i)
}

/// What stands in `order` from place `k - 1` on is what stands there from
/// place `k` on, and the entry at `k - 1`.
proof fn lemma_one_more(order: Seq<usize>, k: int, x: usize)
    requires
        0 < k <= order.len(),
    ensures
        occurs_from(order, x, k - 1) <==> occurs_from(order, x, k) || order[k - 1] == x,
{
    if occurs_from(order, x, k) {
        let w = choose|w: int| 0 <= k <= w < order.len() && order[w] == x;
        assert(order[w] == x);
    }
    if order[k - 1] == x {
        assert(occurs_from(order, x, k - 1));
    }
    if occurs_from(order, x, k - 1) {
        let w = choose|w: int| 0 <= k - 1 <= w < order.len() && order[w] == x;
        if w >= k {
            assert(order[w] == x);
        }
    }
}

/// Gives every parent its children, last visited first, so that a child
/// that is a parent itself is complete when it is handed on. The children
/// of each parent are put in sibling order.
pub(crate) fn attach_children<C: Clone + Default>(
    nodes: &mut Vec<Option<MenuItem<C>>>,
    kids: &Vec<Vec<usize>>,
    order: Vec<usize>,
    Ghost(ds): Ghost<Seq<Declaration<C>>>,
    Ghost(decls): Ghost<Map<Seq<char>, Declaration<C>>>,
    Ghost(roots): Ghost<Seq<usize>>,
)
    requires
        catalog(ds, decls),
        sorted_out(ds, roots, kid_lists(kids@), ds.len() as int),
        parents_first(roots, kid_lists(kids@), up_of(ds), order@),
        old(nodes)@.len() == ds.len(),
        forall|i: int|
            0 <= i < ds.len() ==> (#[trigger] old(nodes)@[i]) is Some && bare(
                ds[i],
                old(nodes)@[i].unwrap(),
            ),
    ensures
        settled(ds, decls, order@, 0, final(nodes)@),
{
    let ghost up = up_of(ds);
    let ghost kl = kid_lists(kids@);
    let ghost order0 = order@;
    let mut stack = order;
    proof {
        lemma_links(ds, decls, roots, kl);
        assert forall|i: int| 0 <= i < ds.len() implies #[trigger] settled_at(
            ds,
            decls,
            order0,
            order0.len() as int,
            nodes@,
            i,
        ) by {
            assert(nodes@[i] is Some);
        }
    }
    while stack.len() > 0
        invariant
            catalog(ds, decls),
            up == up_of(ds),
            kl == kid_lists(kids@),
            sorted_out(ds, roots, kl, ds.len() as int),
            linked(roots, kl, up),
            parents_first(roots, kl, up, order0),
            stack@.len() <= order0.len(),
            forall|j: int| 0 <= j < stack@.len() ==> stack@[j] == order0[j],
            settled(ds, decls, order0, stack@.len() as int, nodes@),
        decreases stack@.len(),
    {
        let ghost k = stack@.len() as int;
        let ghost nodes0 = nodes@;
        let p = stack.pop().unwrap();
        proof {
            assert(p == order0[k - 1]);
            assert forall|m: int| 0 <= m < kl[p as int].len() implies (#[trigger] kl[p as int][m])
                < nodes@.len() && nodes@[kl[p as int][m] as int] is Some by {
                let c = kl[p as int][m];
                assert(up[c as int] == Some(p));
                assert(settled_at(ds, decls, order0, k, nodes0, c as int));
                if occurs_from(order0, p, k) {
                    let w = choose|w: int| 0 <= k <= w < order0.len() && order0[w] == p;
                    assert(order0[w] == order0[k - 1]);
                }
            }
            assert(kl[p as int].no_duplicates());
        }
        let mut children = take_all(nodes, &kids[p]);
        let ghost nodes1 = nodes@;
        let ghost unsorted = children@;
        let ghost parent_id = Some(ds[p as int].id);
        proof {
            assert forall|m: int| 0 <= m < kl[p as int].len() implies (#[trigger] kl[p as int][m])
                < ds.len() && unsorted[m]@.id == ds[kl[p as int][m] as int].id && built_from(
                decls,
                unsorted[m],
            ) by {
                let c = kl[p as int][m];
                assert(up[c as int] == Some(p));
                assert(settled_at(ds, decls, order0, k, nodes0, c as int));
                if occurs_from(order0, p, k) {
                    let w = choose|w: int| 0 <= k <= w < order0.len() && order0[w] == p;
                    assert(order0[w] == order0[k - 1]);
                }
                assert(nodes0[c as int] == Some(unsorted[m]));
                if !occurs_from(order0, c, k) {
                    if kl[c as int].len() > 0 {
                        assert(occurs_from(order0, kl[order0[k - 1] as int][m], k - 1 + 1));
                    }
                    lemma_bare_childless(ds, decls, roots, kl, c as int, unsorted[m]);
                }
            }
            assert forall|x: usize| x < ds.len() implies (ds[x as int].parent == parent_id
                <==> #[trigger] kl[p as int].contains(x)) by {
                assert(child_of(ds, x as int, p as int) <==> kl[p as int].contains(x));
            }
            lemma_level_held(ds, decls, parent_id, kl[p as int], unsorted);
        }
        put_in_order(&mut children, Ghost(decls), Ghost(parent_id));
        proof {
            // the parent is still in its place, without children
            assert(settled_at(ds, decls, order0, k, nodes0, p as int));
            if up[p as int] is Some {
                let q = up[p as int].unwrap();
                assert(occurs_before(order0, q, k - 1));
                let a = choose|a: int| 0 <= a < k - 1 && a < order0.len() && order0[a] == q;
                if occurs_from(order0, q, k) {
                    let b = choose|b: int| 0 <= k <= b < order0.len() && order0[b] == q;
                    assert(order0[a] == order0[b]);
                }
                if kl[p as int].contains(p) {
                    let m = choose|m: int| 0 <= m < kl[p as int].len() && kl[p as int][m] == p;
                    assert(up[kl[p as int][m] as int] == Some(p));
                    assert(order0[a] == order0[k - 1]);
                }
            } else {
                if kl[p as int].contains(p) {
                    let m = choose|m: int| 0 <= m < kl[p as int].len() && kl[p as int][m] == p;
                    assert(up[kl[p as int][m] as int] == Some(p));
                }
            }
            if occurs_from(order0, p, k) {
                let w = choose|w: int| 0 <= k <= w < order0.len() && order0[w] == p;
                assert(order0[w] == order0[k - 1]);
            }
            assert(nodes1[p as int] == nodes0[p as int]);
            assert(bare(ds[p as int], nodes0[p as int].unwrap()));
        }
        match nodes[p].take() {
            Some(parent) => {
                let mut parent = parent;
                parent.set_children(children);
                assert(built_from(decls, parent));
                nodes[p] = Some(parent);
            },
            None => {},
        }
        proof {
            assert forall|i: int| 0 <= i < ds.len() implies #[trigger] settled_at(
                ds,
                decls,
                order0,
                k - 1,
                nodes@,
                i,
            ) by {
                assert(settled_at(ds, decls, order0, k, nodes0, i));
                lemma_one_more(order0, k, i as usize);
                if up[i] is Some {
                    lemma_one_more(order0, k, up[i].unwrap());
                    if up[i].unwrap() == p {
                        assert(kl[p as int].contains(i as usize));
                    }
                }
                if kl[p as int].contains(i as usize) {
                    let m = choose|m: int|
                        0 <= m < kl[p as int].len() && kl[p as int][m] == i as usize;
                    assert(up[kl[p as int][m] as int] == Some(p));
                }
            }
        }
    }
}

/// Puts the items of a level in sibling order.
pub(crate) fn put_in_order<C: Clone + Default>(
    items: &mut Vec<MenuItem<C>>,
    Ghost(decls): Ghost<Map<Seq<char>, Declaration<C>>>,
    Ghost(parent): Ghost<Option<Seq<char>>>,
)
    requires
        holds_children(decls, parent, old(items)@),
    ensures
        lists_children(decls, parent, final(items)@),
{
    let ghost before = items@;
    sort_items(items);
    proof {
        lemma_level_sorted(decls, parent, before, items@);
    }
}

/// Takes the root items out of their places, once every parent has
/// received its children.
pub(crate) fn take_roots<C: Clone + Default>(
    nodes: &mut Vec<Option<MenuItem<C>>>,
    roots: &Vec<usize>,
    Ghost(kids): Ghost<Seq<Seq<usize>>>,
    Ghost(order): Ghost<Seq<usize>>,
    Ghost(ds): Ghost<Seq<Declaration<C>>>,
    Ghost(decls): Ghost<Map<Seq<char>, Declaration<C>>>,
) -> (taken: Vec<MenuItem<C>>)
    requires
        catalog(ds, decls),
        sorted_out(ds, roots@, kids, ds.len() as int),
        parents_first(roots@, kids, up_of(ds), order),
        settled(ds, decls, order, 0, old(nodes)@),
    ensures
        holds_children(decls, None, taken@),
{
    let ghost nodes0 = nodes@;
    proof {
        lemma_links(ds, decls, roots@, kids);
        assert forall|k: int| 0 <= k < roots@.len() implies (#[trigger] roots@[k]) < nodes@.len()
            && nodes@[roots@[k] as int] is Some by {
            assert(settled_at(ds, decls, order, 0, nodes0, roots@[k] as int));
        }
    }
    let taken = take_all(nodes, roots);
    proof {
        assert forall|k: int| 0 <= k < roots@.len() implies (#[trigger] roots@[k]) < ds.len()
            && taken@[k]@.id == ds[roots@[k] as int].id && built_from(decls, taken@[k]) by {
            let r = roots@[k];
            assert(settled_at(ds, decls, order, 0, nodes0, r as int));
            if !occurs_from(order, r, 0) {
                if kids[r as int].len() > 0 {
                    assert(order.contains(r));
                    let w = choose|w: int| 0 <= w < order.len() && order[w] == r;
                    assert(order[w] == r);
                }
                lemma_bare_childless(ds, decls, roots@, kids, r as int, taken@[k]);
            }
        }
        assert forall|x: usize| x < ds.len() implies (ds[x as int].parent == None::<Seq<char>>
            <==> #[trigger] roots@.contains(x)) by {
            assert(ds[x as int].parent is None <==> roots@.contains(x));
        }
        lemma_level_held(ds, decls, None, roots@, taken@);
    }
    taken
}

} // verus!
