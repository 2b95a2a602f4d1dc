//! What holds of an assembled menu: where its items stand, in which order,
//! and which declarations have an item in it.

use vstd::prelude::*;
use vstd::seq_lib::seq_to_set_is_finite;
use crate::menu::{assembled, built_from, declared_under, lists_children};
use crate::menuitem::{Declaration, MenuItem};
use crate::order::ordered;

verus! {

broadcast use MenuItem::lemma_children_decrease;

/// The identifiers of the items, in their order.
pub open spec fn ids_of<C: Clone + Default>(items: Seq<MenuItem<C>>) -> Seq<Seq<char>> {
    Seq::new(items.len(), |i: int| items[i]@.id)
}

/// The identifiers that are declared with `parent` as their parent.
pub open spec fn declared_below<C>(
    decls: Map<Seq<char>, Declaration<C>>,
    parent: Option<Seq<char>>,
) -> Set<Seq<char>> {
    Set::new(|id: Seq<char>| declared_under(decls, parent, id))
}

/// A level of the menu holds one item for every declaration that names its
/// parent, and no other: the identifiers of its items are those
/// declarations' identifiers, each once, and it has as many items as there
/// are such declarations.
pub proof fn lemma_level_complete<C: Clone + Default>(
    decls: Map<Seq<char>, Declaration<C>>,
    parent: Option<Seq<char>>,
    items: Seq<MenuItem<C>>,
)
    requires
        lists_children(decls, parent, items),
    ensures
        ids_of(items).no_duplicates(),
        ids_of(items).to_set() == declared_below(decls, parent),
        declared_below(decls, parent).finite(),
        items.len() == declared_below(decls, parent).len(),
{
    let ids = ids_of(items);
    assert forall|i: int, j: int| 0 <= i < ids.len() && 0 <= j < ids.len() && i != j implies ids[i]
        != ids[j] by {
        if i < j {
            assert(items[i]@.id != items[j]@.id);
        } else {
            assert(items[j]@.id != items[i]@.id);
        }
    }
    assert forall|id: Seq<char>| ids.to_set().contains(id) <==> declared_below(
        decls,
        parent,
    ).contains(id) by {
        if ids.to_set().contains(id) {
            let i = choose|i: int| 0 <= i < ids.len() && ids[i] == id;
            assert(declared_under(decls, parent, items[i]@.id));
        }
        if declared_under(decls, parent, id) {
            let i = choose|i: int| 0 <= i < items.len() && (#[trigger] items[i])@.id == id;
            assert(ids[i] == id);
        }
    }
    assert(ids.to_set() =~= declared_below(decls, parent));
    ids.unique_seq_to_set();
    seq_to_set_is_finite(ids);
}

/// `item` stands somewhere in the forest `items`: it is one of them, or
/// stands somewhere below one of them.
pub open spec fn within<C: Clone + Default>(items: Seq<MenuItem<C>>, item: MenuItem<C>) -> bool
    decreases items,
{
    exists|i: int|
        0 <= i < items.len() && ((#[trigger] items[i]) == item || within(
            items[i]@.children,
            item,
        ))
}

/// Every item that stands in a level of the menu or below it is built from
/// the declarations, and so is everything below it.
pub proof fn lemma_within_built<C: Clone + Default>(
    decls: Map<Seq<char>, Declaration<C>>,
    parent: Option<Seq<char>>,
    items: Seq<MenuItem<C>>,
    item: MenuItem<C>,
)
    requires
        lists_children(decls, parent, items),
        within(items, item),
    ensures
        built_from(decls, item),
    decreases items,
{
    let i = choose|i: int|
        0 <= i < items.len() && ((#[trigger] items[i]) == item || within(
            items[i]@.children,
            item,
        ));
    assert(built_from(decls, items[i]));
    if items[i] != item {
        lemma_within_built(decls, Some(items[i]@.id), items[i]@.children, item);
    }
}

/// Every level of the forest stands in sibling order: ascending by weight,
/// and for equal weights ascending by title.
pub open spec fn ordered_throughout<C: Clone + Default>(items: Seq<MenuItem<C>>) -> bool
    decreases items,
{
    &&& ordered(items)
    &&& forall|i: int|
        0 <= i < items.len() ==> ordered_throughout((#[trigger] items[i])@.children)
}

/// Every level of an assembled menu, the root level and the children of
/// every item, stands in ascending order of weight, and items of equal
/// weight in ascending order of their titles.
pub proof fn lemma_levels_ordered<C: Clone + Default>(
    decls: Map<Seq<char>, Declaration<C>>,
    parent: Option<Seq<char>>,
    items: Seq<MenuItem<C>>,
)
    requires
        lists_children(decls, parent, items),
    ensures
        ordered_throughout(items),
    decreases items,
{
    assert forall|i: int| 0 <= i < items.len() implies ordered_throughout(
        (#[trigger] items[i])@.children,
    ) by {
        assert(built_from(decls, items[i]));
        lemma_levels_ordered(decls, Some(items[i]@.id), items[i]@.children);
    }
}

/// In a forest that is ordered throughout, the children of every item stand
/// in sibling order.
pub proof fn lemma_within_ordered<C: Clone + Default>(
    items: Seq<MenuItem<C>>,
    item: MenuItem<C>,
)
    requires
        ordered_throughout(items),
        within(items, item),
    ensures
        ordered(item@.children),
    decreases items,
{
    let i = choose|i: int|
        0 <= i < items.len() && ((#[trigger] items[i]) == item || within(
            items[i]@.children,
            item,
        ));
    assert(ordered_throughout(items[i]@.children));
    if items[i] != item {
        lemma_within_ordered(items[i]@.children, item);
    }
}

/// A declaration that names a parent is no root item, and under every item
/// of the menu stand all the declarations that name it as their parent.
pub proof fn lemma_children_nested<C: Clone + Default>(
    decls: Map<Seq<char>, Declaration<C>>,
    roots: Seq<MenuItem<C>>,
    child: Seq<char>,
)
    requires
        assembled(decls, roots),
        decls.contains_key(child),
        decls[child].parent is Some,
    ensures
        forall|i: int| 0 <= i < roots.len() ==> (#[trigger] roots[i])@.id != child,
        forall|item: MenuItem<C>|
            #[trigger] within(roots, item) && decls[child].parent == Some(item@.id) ==> exists|
                j: int,
            |
                0 <= j < item@.children.len() && (#[trigger] item@.children[j])@.id == child,
{
    assert forall|i: int| 0 <= i < roots.len() implies (#[trigger] roots[i])@.id != child by {
        assert(declared_under(decls, None, roots[i]@.id));
    }
    assert forall|item: MenuItem<C>|
        #[trigger] within(roots, item) && decls[child].parent == Some(item@.id) implies exists|
        j: int,
    |
        0 <= j < item@.children.len() && (#[trigger] item@.children[j])@.id == child by {
        lemma_within_built(decls, None, roots, item);
        assert(declared_under(decls, Some(item@.id), child));
    }
}

/// The parent that the declaration of an item in a level or below it names
/// is the one of the level, or is declared itself.
pub proof fn lemma_within_parent<C: Clone + Default>(
    decls: Map<Seq<char>, Declaration<C>>,
    parent: Option<Seq<char>>,
    items: Seq<MenuItem<C>>,
    item: MenuItem<C>,
)
    requires
        lists_children(decls, parent, items),
        within(items, item),
    ensures
        decls.contains_key(item@.id),
        decls[item@.id].parent == parent || (decls[item@.id].parent is Some && decls.contains_key(
            decls[item@.id].parent.unwrap(),
        )),
    decreases items,
{
    let i = choose|i: int|
        0 <= i < items.len() && ((#[trigger] items[i]) == item || within(
            items[i]@.children,
            item,
        ));
    assert(declared_under(decls, parent, items[i]@.id));
    assert(built_from(decls, items[i]));
    if items[i] != item {
        lemma_within_parent(decls, Some(items[i]@.id), items[i]@.children, item);
    }
}

/// A declaration whose parent is not declared appears nowhere in the
/// assembled menu, neither at the root level nor among the children of any
/// item.
pub proof fn lemma_orphan_omitted<C: Clone + Default>(
    decls: Map<Seq<char>, Declaration<C>>,
    roots: Seq<MenuItem<C>>,
    orphan: Seq<char>,
)
    requires
        assembled(decls, roots),
        decls.contains_key(orphan),
        decls[orphan].parent is Some,
        !decls.contains_key(decls[orphan].parent.unwrap()),
    ensures
        forall|item: MenuItem<C>| #[trigger] within(roots, item) ==> item@.id != orphan,
{
    assert forall|item: MenuItem<C>| #[trigger] within(roots, item) implies item@.id != orphan by {
        lemma_within_parent(decls, None, roots, item);
    }
}

/// Neither of two declarations that name each other as parent stands in a
/// level, or below it, whose parent is neither of them.
pub proof fn lemma_cycle_outside<C: Clone + Default>(
    decls: Map<Seq<char>, Declaration<C>>,
    parent: Option<Seq<char>>,
    items: Seq<MenuItem<C>>,
    a: Seq<char>,
    b: Seq<char>,
    item: MenuItem<C>,
)
    requires
        lists_children(decls, parent, items),
        decls.contains_key(a),
        decls.contains_key(b),
        decls[a].parent == Some(b),
        decls[b].parent == Some(a),
        parent != Some(a),
        parent != Some(b),
        within(items, item),
    ensures
        item@.id != a,
        item@.id != b,
    decreases items,
{
    let i = choose|i: int|
        0 <= i < items.len() && ((#[trigger] items[i]) == item || within(
            items[i]@.children,
            item,
        ));
    assert(declared_under(decls, parent, items[i]@.id));
    assert(built_from(decls, items[i]));
    if items[i] != item {
        lemma_cycle_outside(decls, Some(items[i]@.id), items[i]@.children, a, b, item);
    }
}

/// Two declarations that name each other as parent appear nowhere in the
/// assembled menu.
pub proof fn lemma_cycle_omitted<C: Clone + Default>(
    decls: Map<Seq<char>, Declaration<C>>,
    roots: Seq<MenuItem<C>>,
    a: Seq<char>,
    b: Seq<char>,
)
    requires
        assembled(decls, roots),
        decls.contains_key(a),
        decls.contains_key(b),
        decls[a].parent == Some(b),
        decls[b].parent == Some(a),
    ensures
        forall|item: MenuItem<C>|
            #[trigger] within(roots, item) ==> item@.id != a && item@.id != b,
{
    assert forall|item: MenuItem<C>| #[trigger] within(roots, item) implies item@.id != a
        && item@.id != b by {
        lemma_cycle_outside(decls, None, roots, a, b, item);
    }
}

/// `path` leads to an item of the forest: its first entry is a place among
/// `items`, the next a place among the children of the item there, and so
/// on.
pub open spec fn is_path<C: Clone + Default>(items: Seq<MenuItem<C>>, path: Seq<int>) -> bool
    decreases path.len(),
{
    &&& path.len() > 0
    &&& 0 <= path[0] < items.len()
    &&& path.len() > 1 ==> is_path(items[path[0]]@.children, path.drop_first())
}

/// The item to which `path` leads.
pub open spec fn item_at<C: Clone + Default>(items: Seq<MenuItem<C>>, path: Seq<int>) -> MenuItem<
    C,
>
    decreases path.len(),
{
    if path.len() <= 1 {
        items[path[0]]
    } else {
        item_at(items[path[0]]@.children, path.drop_first())
    }
}

/// `id` names `top` as its parent (`hops` is 0), or the parent that it names
/// does so at one hop less: `hops` declared parents above `id` stands one
/// that names `top`.
pub open spec fn rises_to<C>(
    decls: Map<Seq<char>, Declaration<C>>,
    id: Seq<char>,
    hops: nat,
    top: Option<Seq<char>>,
) -> bool
    decreases hops,
{
    if hops == 0 {
        declared_under(decls, top, id)
    } else {
        &&& decls.contains_key(id)
        &&& decls[id].parent is Some
        &&& rises_to(decls, decls[id].parent.unwrap(), (hops - 1) as nat, top)
    }
}

/// An item that stands in a forest stands at the end of a path.
pub proof fn lemma_within_path<C: Clone + Default>(
    items: Seq<MenuItem<C>>,
    item: MenuItem<C>,
) -> (path: Seq<int>)
    requires
        within(items, item),
    ensures
        is_path(items, path),
        item_at(items, path) == item,
    decreases items,
{
    let i = choose|i: int|
        0 <= i < items.len() && ((#[trigger] items[i]) == item || within(
            items[i]@.children,
            item,
        ));
    if items[i] == item {
        seq![i]
    } else {
        let rest = lemma_within_path(items[i]@.children, item);
        let path = seq![i] + rest;
        assert(path.drop_first() =~= rest);
        path
    }
}

/// The item at the end of a path stands in the forest.
pub proof fn lemma_path_within<C: Clone + Default>(items: Seq<MenuItem<C>>, path: Seq<int>)
    requires
        is_path(items, path),
    ensures
        within(items, item_at(items, path)),
    decreases path.len(),
{
    if path.len() > 1 {
        lemma_path_within(items[path[0]]@.children, path.drop_first());
    }
    assert(items[path[0]] == item_at(items, path) || within(
        items[path[0]]@.children,
        item_at(items, path),
    ));
}

/// From the item at the end of a path in a level of the menu, as many
/// declared parents lead up to the level as the path has steps below it.
pub proof fn lemma_path_rises<C: Clone + Default>(
    decls: Map<Seq<char>, Declaration<C>>,
    parent: Option<Seq<char>>,
    items: Seq<MenuItem<C>>,
    path: Seq<int>,
)
    requires
        lists_children(decls, parent, items),
        is_path(items, path),
    ensures
        rises_to(decls, item_at(items, path)@.id, (path.len() - 1) as nat, parent),
        path.len() > 1 ==> rises_to(
            decls,
            item_at(items, path)@.id,
            (path.len() - 2) as nat,
            Some(items[path[0]]@.id),
        ),
    decreases path.len(),
{
    let first = items[path[0]];
    assert(declared_under(decls, parent, first@.id));
    assert(built_from(decls, first));
    if path.len() > 1 {
        lemma_path_rises(decls, Some(first@.id), first@.children, path.drop_first());
        lemma_rises_further(
            decls,
            item_at(items, path)@.id,
            (path.len() - 2) as nat,
            first@.id,
            parent,
        );
    }
}

/// One hop more leads from the parent that was reached to the one that it
/// names.
pub proof fn lemma_rises_further<C>(
    decls: Map<Seq<char>, Declaration<C>>,
    id: Seq<char>,
    hops: nat,
    reached: Seq<char>,
    top: Option<Seq<char>>,
)
    requires
        rises_to(decls, id, hops, Some(reached)),
        declared_under(decls, top, reached),
    ensures
        rises_to(decls, id, hops + 1, top),
    decreases hops,
{
    if hops > 0 {
        lemma_rises_further(decls, decls[id].parent.unwrap(), (hops - 1) as nat, reached, top);
        assert(rises_to(decls, decls[id].parent.unwrap(), hops, top));
    } else {
        assert(rises_to(decls, reached, 0, top));
    }
}

/// The parent that stands a given number of hops above an identifier is one
/// alone.
pub proof fn lemma_rises_to_one<C>(
    decls: Map<Seq<char>, Declaration<C>>,
    id: Seq<char>,
    hops: nat,
    top: Option<Seq<char>>,
    other: Option<Seq<char>>,
)
    requires
        rises_to(decls, id, hops, top),
        rises_to(decls, id, hops, other),
    ensures
        top == other,
    decreases hops,
{
    if hops > 0 {
        lemma_rises_to_one(decls, decls[id].parent.unwrap(), (hops - 1) as nat, top, other);
    }
}

/// A declaration from which hops lead up to one without a parent is that
/// number of hops away from it, and no other.
pub proof fn lemma_rises_to_root_once<C>(
    decls: Map<Seq<char>, Declaration<C>>,
    id: Seq<char>,
    hops: nat,
    other: nat,
)
    requires
        rises_to(decls, id, hops, None),
        rises_to(decls, id, other, None),
    ensures
        hops == other,
    decreases hops,
{
    if hops > 0 && other > 0 {
        lemma_rises_to_root_once(
            decls,
            decls[id].parent.unwrap(),
            (hops - 1) as nat,
            (other - 1) as nat,
        );
    }
}

/// Two paths of one length that lead to items with one identifier are one
/// path.
pub proof fn lemma_level_paths_agree<C: Clone + Default>(
    decls: Map<Seq<char>, Declaration<C>>,
    parent: Option<Seq<char>>,
    items: Seq<MenuItem<C>>,
    path: Seq<int>,
    other: Seq<int>,
)
    requires
        lists_children(decls, parent, items),
        is_path(items, path),
        is_path(items, other),
        path.len() == other.len(),
        item_at(items, path)@.id == item_at(items, other)@.id,
    ensures
        path == other,
    decreases path.len(),
{
    let id = item_at(items, path)@.id;
    if path.len() > 1 {
        lemma_path_rises(decls, parent, items, path);
        lemma_path_rises(decls, parent, items, other);
        lemma_rises_to_one(
            decls,
            id,
            (path.len() - 2) as nat,
            Some(items[path[0]]@.id),
            Some(items[other[0]]@.id),
        );
    }
    if path[0] < other[0] {
        assert(items[path[0]]@.id != items[other[0]]@.id);
    }
    if other[0] < path[0] {
        assert(items[other[0]]@.id != items[path[0]]@.id);
    }
    if path.len() > 1 {
        let first = items[path[0]];
        assert(built_from(decls, first));
        lemma_level_paths_agree(
            decls,
            Some(first@.id),
            first@.children,
            path.drop_first(),
            other.drop_first(),
        );
        assert(path =~= seq![path[0]] + path.drop_first());
        assert(other =~= seq![other[0]] + other.drop_first());
    } else {
        assert(path =~= other);
    }
}

/// No two places of an assembled menu hold items with one identifier: a
/// declaration has at most one item in the menu.
pub proof fn lemma_one_place<C: Clone + Default>(
    decls: Map<Seq<char>, Declaration<C>>,
    roots: Seq<MenuItem<C>>,
    path: Seq<int>,
    other: Seq<int>,
)
    requires
        assembled(decls, roots),
        is_path(roots, path),
        is_path(roots, other),
        item_at(roots, path)@.id == item_at(roots, other)@.id,
    ensures
        path == other,
{
    lemma_path_rises(decls, None, roots, path);
    lemma_path_rises(decls, None, roots, other);
    lemma_rises_to_root_once(
        decls,
        item_at(roots, path)@.id,
        (path.len() - 1) as nat,
        (other.len() - 1) as nat,
    );
    lemma_level_paths_agree(decls, None, roots, path, other);
}

/// A path can be taken one step further, to a child of the item at its
/// end.
pub proof fn lemma_path_extended<C: Clone + Default>(
    items: Seq<MenuItem<C>>,
    path: Seq<int>,
    step: int,
)
    requires
        is_path(items, path),
        0 <= step < item_at(items, path)@.children.len(),
    ensures
        is_path(items, path.push(step)),
        item_at(items, path.push(step)) == item_at(items, path)@.children[step],
    decreases path.len(),
{
    let longer = path.push(step);
    let below = items[path[0]]@.children;
    assert(longer[0] == path[0]);
    if path.len() > 1 {
        lemma_path_extended(below, path.drop_first(), step);
        assert(longer.drop_first() =~= path.drop_first().push(step));
    } else {
        let rest = longer.drop_first();
        assert(rest =~= seq![step]);
        assert(is_path(below, rest));
        assert(item_at(below, rest) == below[step]);
    }
    assert(is_path(below, longer.drop_first()));
    assert(item_at(items, longer) == item_at(below, longer.drop_first()));
}

/// A declaration from which declared parents lead up to one without a
/// parent has its item in the assembled menu, as many levels below the root
/// level as there are hops.
pub proof fn lemma_rooted_present<C: Clone + Default>(
    decls: Map<Seq<char>, Declaration<C>>,
    roots: Seq<MenuItem<C>>,
    id: Seq<char>,
    hops: nat,
) -> (path: Seq<int>)
    requires
        assembled(decls, roots),
        rises_to(decls, id, hops, None),
    ensures
        is_path(roots, path),
        path.len() == hops + 1,
        item_at(roots, path)@.id == id,
    decreases hops,
{
    if hops == 0 {
        let i = choose|i: int| 0 <= i < roots.len() && (#[trigger] roots[i])@.id == id;
        seq![i]
    } else {
        let above = decls[id].parent.unwrap();
        let up = lemma_rooted_present(decls, roots, above, (hops - 1) as nat);
        let holder = item_at(roots, up);
        lemma_path_within(roots, up);
        lemma_within_built(decls, None, roots, holder);
        assert(declared_under(decls, Some(holder@.id), id));
        let j = choose|j: int|
            0 <= j < holder@.children.len() && (#[trigger] holder@.children[j])@.id == id;
        lemma_path_extended(roots, up, j);
        up.push(j)
    }
}

/// The item at the end of a path in the assembled menu belongs to a
/// declaration from which declared parents lead up to one without a parent.
/// A declaration without such a chain, be it that a parent is not declared
/// or that the parents go round in a circle, has no item in the menu.
pub proof fn lemma_present_rooted<C: Clone + Default>(
    decls: Map<Seq<char>, Declaration<C>>,
    roots: Seq<MenuItem<C>>,
    path: Seq<int>,
)
    requires
        assembled(decls, roots),
        is_path(roots, path),
    ensures
        rises_to(decls, item_at(roots, path)@.id, (path.len() - 1) as nat, None),
{
    lemma_path_rises(decls, None, roots, path);
}

} // verus!
