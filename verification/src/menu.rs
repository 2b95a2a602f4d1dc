//! The menu and the builder that assembles it from declarations.

use vstd::prelude::*;
use vstd::hash_map::StringHashMap;
use crate::assembly::attach::{attach_children, put_in_order, take_roots};
use crate::assembly::links::{
    catalog, indexed, kid_lists, lemma_links, materialize, sort_out, up_of, views,
};
use crate::assembly::parents::parent_order;
use crate::flatiter;
use crate::forest::{lemma_levels_ordered, ordered_throughout};
use crate::menuitem;
use crate::menuitem::{Declaration, MenuItem};
use crate::order::ordered;

verus! {

broadcast use MenuItem::lemma_children_decrease;

/// `id` is declared, with `parent` as its parent (`None`: without one).
pub open spec fn declared_under<C>(
    decls: Map<Seq<char>, Declaration<C>>,
    parent: Option<Seq<char>>,
    id: Seq<char>,
) -> bool {
    decls.contains_key(id) && decls[id].parent == parent
}

/// `item` is what the declarations make of the one that has its identifier:
/// it carries that declaration's title, weight and payload, and its children
/// are the items of the declarations that name it as their parent.
pub open spec fn built_from<C: Clone + Default>(
    decls: Map<Seq<char>, Declaration<C>>,
    item: MenuItem<C>,
) -> bool
    decreases item, 0nat,
{
    &&& decls.contains_key(item@.id)
    &&& item@.title == decls[item@.id].title
    &&& item@.weight == decls[item@.id].weight
    &&& item@.payload == decls[item@.id].payload
    &&& lists_children(decls, Some(item@.id), item@.children)
}

/// `items` holds, once each and whatever their order, the items of exactly
/// the declarations whose parent is `parent`, each built with its own
/// children below it.
pub open spec fn holds_children<C: Clone + Default>(
    decls: Map<Seq<char>, Declaration<C>>,
    parent: Option<Seq<char>>,
    items: Seq<MenuItem<C>>,
) -> bool
    decreases items, 0nat,
{
    &&& forall|i: int|
        0 <= i < items.len() ==> declared_under(decls, parent, (#[trigger] items[i])@.id)
            && built_from(decls, items[i])
    &&& forall|i: int, j: int|
        0 <= i < j < items.len() ==> (#[trigger] items[i])@.id != (#[trigger] items[j])@.id
    &&& forall|id: Seq<char>| #[trigger]
        declared_under(decls, parent, id) ==> exists|i: int|
            0 <= i < items.len() && (#[trigger] items[i])@.id == id
}

/// `items` is the level of the menu below `parent`: the items of exactly the
/// declarations whose parent is `parent`, once each, in sibling order.
pub open spec fn lists_children<C: Clone + Default>(
    decls: Map<Seq<char>, Declaration<C>>,
    parent: Option<Seq<char>>,
    items: Seq<MenuItem<C>>,
) -> bool
    decreases items, 1nat,
{
    &&& holds_children(decls, parent, items)
    &&& ordered(items)
}

/// `roots` is the menu of the declarations: its root level holds the
/// declarations without a parent, and below every item stand the
/// declarations that name it. A declaration from which no chain of parents
/// leads to one without a parent has no place in it.
pub open spec fn assembled<C: Clone + Default>(
    decls: Map<Seq<char>, Declaration<C>>,
    roots: Seq<MenuItem<C>>,
) -> bool {
    lists_children(decls, None, roots)
}

/// Collects item declarations and assembles the menu from them. Of two
/// declarations with one identifier the later one stands.
pub struct Builder<C> where C: Clone + Default {
    items: Vec<menuitem::Builder<C>>,
    index: StringHashMap<usize>,
}

impl<C> View for Builder<C> where C: Clone + Default {
    type V = Map<Seq<char>, Declaration<C>>;

    /// The declarations collected so far, by identifier.
    closed spec fn view(&self) -> Map<Seq<char>, Declaration<C>> {
        Map::new(
            |id: Seq<char>| self.index@.contains_key(id),
            |id: Seq<char>| self.items@[self.index@[id] as int]@,
        )
    }
}

impl<C> Builder<C> where C: Clone + Default {
    #[verifier::type_invariant]
    spec fn well_indexed(self) -> bool {
        indexed(views(self.items@), self.index@)
    }

    /// A builder without declarations.
    pub fn new() -> (b: Self)
        ensures
            b@ == Map::<Seq<char>, Declaration<C>>::empty(),
    {
        let b = Builder { items: Vec::new(), index: StringHashMap::new() };
        assert(b@ =~= Map::<Seq<char>, Declaration<C>>::empty());
        b
    }

    /// Adds a declaration to the menu. It takes the place of an earlier one
    /// with the same identifier. Nothing is checked here: the parent it names
    /// need not be declared.
    pub fn add(&mut self, mib: menuitem::Builder<C>) -> (r: &mut Self)
        ensures
            r@ == old(self)@.insert(mib@.id, mib@),
            *final(self) == *final(r),
    {
        let mut taken = Builder::new();
        core::mem::swap(self, &mut taken);
        proof {
            use_type_invariant(&taken);
        }
        let ghost before = taken@;
        let Builder { mut items, mut index } = taken;
        let ghost items0 = items@;
        let ghost index0 = index@;
        let found: Option<usize> = match index.get(mib.id()) {
            Some(at) => Some(*at),
            None => None,
        };
        match found {
            Some(at) => {
                items[at] = mib;
            },
            None => {
                index.insert(mib.id().to_owned(), items.len());
                items.push(mib);
            },
        }
        proof {
            let ds0 = views(items0);
            let ds = views(items@);
            assert forall|i: int| 0 <= i < ds.len() implies index@.contains_key(
                (#[trigger] ds[i]).id,
            ) && index@[ds[i].id] == i by {
                if i < ds0.len() {
                    assert(index0[ds0[i].id] == i);
                }
            }
            assert forall|id: Seq<char>| index@.contains_key(id) implies (#[trigger] index@[id])
                < ds.len() && ds[index@[id] as int].id == id by {
                if index0.contains_key(id) {
                    assert(ds0[index0[id] as int].id == id);
                }
            }
        }
        let b = Builder { items, index };
        proof {
            assert(b@ =~= before.insert(mib@.id, mib@)) by {
                assert forall|id: Seq<char>| b@.contains_key(id) implies #[trigger] b@[id]
                    == before.insert(mib@.id, mib@)[id] by {
                    if id != mib@.id {
                        assert(views(items0)[index0[id] as int].id == id);
                    }
                }
            }
        }
        *self = b;
        self
    }

    /// The list of declarations and the declarations by identifier hold the
    /// same.
    proof fn lemma_cataloged(self)
        requires
            self.well_indexed(),
        ensures
            catalog(views(self.items@), self@),
    {
        let ds = views(self.items@);
        assert(self.items@.len() == self.items.len());
        assert forall|id: Seq<char>| #[trigger] self@.contains_key(id) implies exists|i: int|
            0 <= i < ds.len() && (#[trigger] ds[i]).id == id by {
            assert(ds[self.index@[id] as int].id == id);
        }
        assert forall|i: int, j: int| 0 <= i < j < ds.len() implies (#[trigger] ds[i]).id != (
        #[trigger] ds[j]).id by {
            assert(self.index@[ds[i].id] == i);
            assert(self.index@[ds[j].id] == j);
        }
    }

    /// Assembles the menu. This cannot fail: a declaration whose parent is
    /// not declared, or whose chain of parents does not end at a declaration
    /// without a parent, is left out with everything below it.
    pub fn build(self) -> (menu: Menu<C>)
        ensures
            assembled(self@, menu@),
    {
        proof {
            use_type_invariant(&self);
            self.lemma_cataloged();
        }
        let ghost decls = self@;
        let Builder { items, index } = self;
        let ghost ds = views(items@);
        // which declarations are roots, and which are the children of which
        let (rootitems, kids) = sort_out(&items, &index);
        // every declaration becomes an item without children
        let mut nodes = materialize(items);
        proof {
            lemma_links(ds, decls, rootitems@, kid_lists(kids@));
        }
        // parents receive their children in the reverse of the order in
        // which a walk from the roots visits them: children before parents
        let order = parent_order(&rootitems, &kids, Ghost(up_of(ds)));
        let ghost visited = order@;
        attach_children(&mut nodes, &kids, order, Ghost(ds), Ghost(decls), Ghost(rootitems@));
        let mut rootlst = take_roots(
            &mut nodes,
            &rootitems,
            Ghost(kid_lists(kids@)),
            Ghost(visited),
            Ghost(ds),
            Ghost(decls),
        );
        put_in_order(&mut rootlst, Ghost(decls), Ghost(None));
        proof {
            lemma_levels_ordered(decls, None, rootlst@);
        }
        Menu { rootlst }
    }
}

/// A menu: the ordered root items, each with its ordered subtree.
pub struct Menu<C> where C: Clone + Default {
    rootlst: Vec<MenuItem<C>>,
}

impl<C> View for Menu<C> where C: Clone + Default {
    type V = Seq<MenuItem<C>>;

    closed spec fn view(&self) -> Seq<MenuItem<C>> {
        self.rootlst@
    }
}

impl<C> Menu<C> where C: Clone + Default {
    #[verifier::type_invariant]
    spec fn well_ordered(self) -> bool {
        ordered_throughout(self.rootlst@)
    }

    /// The root items, in their order. Every level below them is in order
    /// too.
    pub fn get_rootitems(&self) -> (r: &Vec<MenuItem<C>>)
        ensures
            r@ == self@,
            ordered_throughout(r@),
    {
        proof {
            use_type_invariant(self);
        }
        &self.rootlst
    }

    /// A walk over the root items alone, in their order.
    pub fn iter_root(&self) -> (it: flatiter::MenuIter<'_, C>)
        ensures
            it.pending() == self@.as_ref(),
    {
        flatiter::MenuIter::new(&self.rootlst)
    }
}

} // verus!
