//! Item declarations and the menu items built from them.

use vstd::prelude::*;
use std::cmp::Ordering;
use std::hash::{Hash, Hasher};
use crate::order::{compare_text, precedes};

verus! {

/// What an item declaration says, as plain values.
pub struct Declaration<C> {
    pub id: Seq<char>,
    pub title: Seq<char>,
    pub weight: int,
    pub parent: Option<Seq<char>>,
    pub payload: C,
}

/// What a menu item holds, as plain values. The children are the item's own
/// sub-items, in the order in which they are listed.
pub struct Node<C> where C: Clone + Default {
    pub id: Seq<char>,
    pub title: Seq<char>,
    pub weight: int,
    pub payload: C,
    pub children: Seq<MenuItem<C>>,
}

/// The declaration of one menu item: its identifier and title, the weight it
/// is ordered by, the identifier of its parent if it has one, and a payload
/// of the application's.
pub struct Builder<C> where C: Clone + Default {
    miid: String,
    title: String,
    parent: Option<String>,
    weight: isize,
    appctx: C,
}

/// A single menu item with its sub-items.
#[derive(Debug)]
pub struct MenuItem<C> where C: Clone + Default {
    miid: String,
    title: String,
    weight: isize,
    children: Vec<MenuItem<C>>,
    appctx: C,
}

/// The weight of a declaration that sets none.
pub const DEFAULT_WEIGHT: isize = 100;

impl<C> View for Builder<C> where C: Clone + Default {
    type V = Declaration<C>;

    closed spec fn view(&self) -> Declaration<C> {
        Declaration {
            id: self.miid@,
            title: self.title@,
            weight: self.weight as int,
            parent: match self.parent {
                Some(p) => Some(p@),
                None => None,
            },
            payload: self.appctx,
        }
    }
}

impl<C> View for MenuItem<C> where C: Clone + Default {
    type V = Node<C>;

    closed spec fn view(&self) -> Node<C> {
        Node {
            id: self.miid@,
            title: self.title@,
            weight: self.weight as int,
            payload: self.appctx,
            children: self.children@,
        }
    }
}

impl<C> Builder<C> where C: Clone + Default {
    /// Declares an item with the default weight, no parent and a default
    /// payload.
    pub fn new(miid: &str, title: &str) -> (b: Self)
        ensures
            b@.id == miid@,
            b@.title == title@,
            b@.weight == DEFAULT_WEIGHT,
            b@.parent is None,
            call_ensures(C::default, (), b@.payload),
    {
        Builder {
            miid: miid.to_owned(),
            title: title.to_owned(),
            parent: None,
            weight: DEFAULT_WEIGHT,
            appctx: C::default(),
        }
    }

    /// Declares an item with the default weight, no parent and the given
    /// payload.
    pub fn new_ctx(miid: &str, title: &str, appctx: C) -> (b: Self)
        ensures
            b@ == (Declaration {
                id: miid@,
                title: title@,
                weight: DEFAULT_WEIGHT as int,
                parent: None,
                payload: appctx,
            }),
    {
        Builder {
            miid: miid.to_owned(),
            title: title.to_owned(),
            parent: None,
            weight: DEFAULT_WEIGHT,
            appctx,
        }
    }

    /// Names the parent under which the item is to appear.
    pub fn parent(&mut self, parent: &str) -> (r: &mut Self)
        ensures
            r@ == (Declaration { parent: Some(parent@), ..old(self)@ }),
            *final(self) == *final(r),
    {
        self.parent = Some(parent.to_owned());
        self
    }

    /// Sets the weight by which the item is ordered among its siblings.
    pub fn weight(&mut self, weight: isize) -> (r: &mut Self)
        ensures
            r@ == (Declaration { weight: weight as int, ..old(self)@ }),
            *final(self) == *final(r),
    {
        self.weight = weight;
        self
    }

    /// Turns the declaration into a menu item that has no children yet.
    pub fn build(self) -> (item: MenuItem<C>)
        ensures
            item@ == (Node {
                id: self@.id,
                title: self@.title,
                weight: self@.weight,
                payload: self@.payload,
                children: Seq::empty(),
            }),
    {
        MenuItem {
            miid: self.miid,
            title: self.title,
            weight: self.weight,
            children: Vec::new(),
            appctx: self.appctx,
        }
    }

    /// The declared identifier.
    pub(crate) fn id(&self) -> (r: &str)
        ensures
            r@ == self@.id,
    {
        self.miid.as_str()
    }

    /// The identifier of the declared parent, if one was named.
    pub(crate) fn parent_id(&self) -> (r: Option<&str>)
        ensures
            match r {
                Some(p) => self@.parent == Some(p@),
                None => self@.parent is None,
            },
    {
        match &self.parent {
            Some(p) => Some(p.as_str()),
            None => None,
        }
    }
}

impl<C> Default for Builder<C> where C: Clone + Default {
    /// An empty declaration: no identifier, no title, weight 0, no parent.
    fn default() -> (b: Self)
        ensures
            b@.id == Seq::<char>::empty(),
            b@.title == Seq::<char>::empty(),
            b@.weight == 0,
            b@.parent is None,
            call_ensures(C::default, (), b@.payload),
    {
        Builder {
            miid: String::new(),
            title: String::new(),
            parent: None,
            weight: 0,
            appctx: C::default(),
        }
    }
}

/// `hash` of the standard library on a `String`: it feeds the string to the
/// hasher and promises nothing that a contract could state.
pub assume_specification<H: Hasher>[ <String as Hash>::hash ](s: &String, state: &mut H);

impl<C> Hash for Builder<C> where C: Clone + Default {
    /// A declaration is hashed by its identifier alone.
    fn hash<H: Hasher>(&self, state: &mut H) {
        self.miid.hash(state);
    }
}

impl<C> MenuItem<C> where C: Clone + Default {
    /// The children of an item are smaller than the item: functions that
    /// follow the tree downwards end.
    pub broadcast proof fn lemma_children_decrease(self)
        ensures
            decreases_to!(self => (#[trigger] self@).children),
    {
    }

    /// The item's identifier.
    pub fn id(&self) -> (r: &str)
        ensures
            r@ == self@.id,
    {
        self.miid.as_str()
    }

    /// The item's title.
    pub fn title(&self) -> (r: &str)
        ensures
            r@ == self@.title,
    {
        self.title.as_str()
    }

    /// The item's children, in their order.
    pub fn children(&self) -> (r: &Vec<MenuItem<C>>)
        ensures
            r@ == self@.children,
    {
        &self.children
    }

    /// True exactly when the item has no children. Mind the sense: the name
    /// reads as if it asked for the opposite.
    pub fn is_parent(&self) -> (b: bool)
        ensures
            b == (self@.children.len() == 0),
    {
        self.children.len() == 0
    }

    /// The payload that the application attached to the item.
    pub fn appctx(&self) -> (r: &C)
        ensures
            *r == self@.payload,
    {
        &self.appctx
    }

    /// Compares two items as siblings are ordered: by weight, and by title
    /// where the weights are equal.
    pub fn order_cmp(&self, other: &Self) -> (o: Ordering)
        ensures
            o == Ordering::Less <==> precedes(self@, other@),
            o == Ordering::Greater <==> precedes(other@, self@),
            o == Ordering::Equal <==> self@.weight == other@.weight && self@.title == other@.title,
    {
        if self.weight == other.weight {
            return compare_text(self.title.as_str(), other.title.as_str());
        }
        if self.weight < other.weight {
            Ordering::Less
        } else {
            Ordering::Greater
        }
    }

    /// Gives the item its children.
    pub(crate) fn set_children(&mut self, children: Vec<MenuItem<C>>)
        ensures
            final(self)@ == (Node { children: children@, ..old(self)@ }),
    {
        self.children = children;
    }
}

/// `copy` is a clone of `item`: it has the same identifier, title and
/// weight, its payload is a clone of the payload of `item`, and its children
/// are clones of the children of `item`, in their order.
pub open spec fn mirrors<C: Clone + Default>(item: MenuItem<C>, copy: MenuItem<C>) -> bool
    decreases item,
{
    &&& copy@.id == item@.id
    &&& copy@.title == item@.title
    &&& copy@.weight == item@.weight
    &&& cloned(item@.payload, copy@.payload)
    &&& copy@.children.len() == item@.children.len()
    &&& forall|i: int|
        0 <= i < item@.children.len() ==> mirrors(
            #[trigger] item@.children[i],
            copy@.children[i],
        )
}

impl<C> Clone for MenuItem<C> where C: Clone + Default {
    /// Clones the item with the whole tree below it.
    fn clone(&self) -> (copy: Self)
        ensures
            mirrors(*self, copy),
        decreases self,
    {
        let mut children: Vec<MenuItem<C>> = Vec::new();
        let mut i: usize = 0;
        while i < self.children.len()
            invariant
                i <= self.children@.len(),
                children@.len() == i,
                forall|k: int|
                    0 <= k < i ==> mirrors(#[trigger] self.children@[k], children@[k]),
            decreases self.children@.len() - i,
        {
            let child = self.children[i].clone();
            children.push(child);
            i = i + 1;
        }
        MenuItem {
            miid: self.miid.clone(),
            title: self.title.clone(),
            weight: self.weight,
            children,
            appctx: self.appctx.clone(),
        }
    }
}

impl<C> Default for MenuItem<C> where C: Clone + Default {
    /// An item without identifier, title or children, of weight 0.
    fn default() -> (item: Self)
        ensures
            item@.id == Seq::<char>::empty(),
            item@.title == Seq::<char>::empty(),
            item@.weight == 0,
            item@.children == Seq::<MenuItem<C>>::empty(),
            call_ensures(C::default, (), item@.payload),
    {
        MenuItem {
            miid: String::new(),
            title: String::new(),
            weight: 0,
            children: Vec::new(),
            appctx: C::default(),
        }
    }
}

impl<C> Hash for MenuItem<C> where C: Clone + Default {
    /// An item is hashed by its identifier alone.
    fn hash<H: Hasher>(&self, state: &mut H) {
        self.miid.hash(state);
    }
}

} // verus!
