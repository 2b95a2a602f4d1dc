//! The flat walk: the items of one level, in their order, without descending
//! into their children.

use vstd::prelude::*;
use vstd::std_specs::iter::IteratorSpecImpl;
use crate::menuitem::MenuItem;

verus! {

/// Walks over the items of a list, in their order.
pub struct MenuIter<'a, C> where C: Clone + Default {
    lst: &'a Vec<MenuItem<C>>,
    idx: usize,
}

impl<'a, C> MenuIter<'a, C> where C: Clone + Default {
    #[verifier::type_invariant]
    spec fn wf(self) -> bool {
        self.idx <= self.lst@.len()
    }

    /// The items that the walk has yet to give, in their order.
    pub closed spec fn pending(&self) -> Seq<&'a MenuItem<C>> {
        self.lst@.skip(self.idx as int).as_ref()
    }

    /// A walk over all the items of `cont`.
    pub fn new(cont: &'a Vec<MenuItem<C>>) -> (it: Self)
        ensures
            it.pending() == cont@.as_ref(),
    {
        assert(cont@.skip(0) =~= cont@);
        MenuIter { lst: cont, idx: 0 }
    }
}

impl<'a, C> Iterator for MenuIter<'a, C> where C: Clone + Default {
    type Item = &'a MenuItem<C>;

    /// Gives the next item of the list, or `None` at its end.
    fn next(&mut self) -> (ret: Option<&'a MenuItem<C>>)
        ensures
            match ret {
                Some(item) => old(self).pending() == seq![item] + final(self).pending(),
                None => old(self).pending() == Seq::<&'a MenuItem<C>>::empty()
                    && final(self).pending() == Seq::<&'a MenuItem<C>>::empty(),
            },
    {
        proof {
            use_type_invariant(&*self);
        }
        let ghost before = self.pending();
        if self.idx < self.lst.len() {
            let node = &self.lst[self.idx];
            self.idx = self.idx + 1;
            proof {
                assert(before =~= seq![node] + self.pending());
                assert(before.drop_first() =~= self.pending());
            }
            Some(node)
        } else {
            assert(before =~= Seq::<&'a MenuItem<C>>::empty());
            None
        }
    }
}

impl<'a, C> IteratorSpecImpl for MenuIter<'a, C> where C: Clone + Default {
    open spec fn obeys_prophetic_iter_laws(&self) -> bool {
        true
    }

    open spec fn remaining(&self) -> Seq<Self::Item> {
        self.pending()
    }

    open spec fn will_return_none(&self) -> bool {
        true
    }

    open spec fn decrease(&self) -> Option<nat> {
        Some(self.pending().len())
    }

    open spec fn initial_value_relation(&self, init: &Self) -> bool {
        self.pending() == init.pending()
    }

    open spec fn peek(&self, index: int) -> Option<Self::Item> {
        if 0 <= index < self.pending().len() {
            Some(self.pending()[index])
        } else {
            None
        }
    }
}

} // verus!
