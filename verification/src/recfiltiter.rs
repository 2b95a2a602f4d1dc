//! The depth-first walk over a menu. It reports every visible item, and the
//! beginning and the end of every level of siblings that has a visible item.

use vstd::prelude::*;
use vstd::std_specs::iter::IteratorSpecImpl;
use crate::events::{all_shown, answers, decides, level_events, run_events};
use crate::menu::Menu;
use crate::menuitem::MenuItem;

verus! {

/// What the walk reports.
pub enum Event<'a, C> where C: Clone + Default {
    /// A level of siblings begins: its first visible item follows.
    EnterScope,
    /// The level that was entered last and not yet left ends.
    LeaveScope,
    /// A visible item.
    MenuItem(&'a MenuItem<C>),
}

/// One level of siblings that the walk is in: the place it has reached
/// there, and whether the level's beginning and end have been reported.
struct IterNode<'a, C> where C: Clone + Default {
    lst: &'a Vec<MenuItem<C>>,
    idx: usize,
    did_enter_scope: bool,
    did_leave_scope: bool,
}

/// The events that a level in the walk has yet to give.
spec fn frame_events<'a, C: Clone + Default>(
    frame: IterNode<'a, C>,
    visible: spec_fn(MenuItem<C>) -> bool,
) -> Seq<Event<'a, C>> {
    let body = run_events(frame.lst@, frame.idx as int, visible);
    if frame.did_enter_scope {
        if frame.did_leave_scope {
            body
        } else {
            body + seq![Event::LeaveScope]
        }
    } else if body.len() > 0 {
        seq![Event::EnterScope] + body + seq![Event::LeaveScope]
    } else {
        Seq::empty()
    }
}

/// The events that the levels in the walk have yet to give, the innermost
/// first.
spec fn stack_events<'a, C: Clone + Default>(
    stack: Seq<IterNode<'a, C>>,
    visible: spec_fn(MenuItem<C>) -> bool,
) -> Seq<Event<'a, C>>
    decreases stack.len(),
{
    if stack.len() == 0 {
        Seq::empty()
    } else {
        frame_events(stack.last(), visible) + stack_events(stack.drop_last(), visible)
    }
}

/// The place of every level is within it, and no level has reported its end
/// before its beginning.
spec fn frames_ok<'a, C: Clone + Default>(stack: Seq<IterNode<'a, C>>) -> bool {
    forall|i: int|
        0 <= i < stack.len() ==> (#[trigger] stack[i]).idx <= stack[i].lst@.len() && (
        stack[i].did_leave_scope ==> stack[i].did_enter_scope)
}

/// A bound on the steps that the walk can still take without an event.
spec fn work<'a, C: Clone + Default>(stack: Seq<IterNode<'a, C>>) -> nat
    decreases stack.len(),
{
    if stack.len() == 0 {
        0
    } else {
        (stack.last().lst@.len() - stack.last().idx + 1) as nat + work(stack.drop_last())
    }
}

/// With a level put on top, its events come first.
proof fn lemma_pushed_frame<'a, C: Clone + Default>(
    stack: Seq<IterNode<'a, C>>,
    frame: IterNode<'a, C>,
    visible: spec_fn(MenuItem<C>) -> bool,
)
    ensures
        stack_events(stack.push(frame), visible) == frame_events(frame, visible) + stack_events(
            stack,
            visible,
        ),
{
    assert(stack.push(frame).drop_last() =~= stack);
    assert(stack.push(frame).last() == frame);
}

/// With a level put on top, the steps that it can take are added.
proof fn lemma_pushed_work<'a, C: Clone + Default>(
    stack: Seq<IterNode<'a, C>>,
    frame: IterNode<'a, C>,
)
    requires
        frame.idx <= frame.lst@.len(),
    ensures
        work(stack.push(frame)) == (frame.lst@.len() - frame.idx + 1) + work(stack),
{
    assert(stack.push(frame).drop_last() =~= stack);
    assert(stack.push(frame).last() == frame);
}

/// The depth-first walk over a menu. It gives the items that the filter
/// accepts, each before its children, and reports the beginning and the end
/// of every level of children that has such an item. The root level is
/// reported in the same way only where `root_scope` has asked for it.
pub struct MenuIter<'a, C, F> where C: Clone + Default, F: Fn(&MenuItem<C>) -> bool {
    stack: Vec<IterNode<'a, C>>,
    myfilter: F,
    started: bool,
}

impl<'a, C, F> MenuIter<'a, C, F> where C: Clone + Default, F: Fn(&MenuItem<C>) -> bool {
    #[verifier::type_invariant]
    spec fn wf(self) -> bool {
        &&& decides(self.myfilter)
        &&& frames_ok(self.stack@)
        &&& !self.started ==> self.stack@.len() == 1 && self.stack@[0].idx == 0
    }

    /// The filter that decides which items are visible.
    pub closed spec fn predicate(&self) -> F {
        self.myfilter
    }

    /// The events that the walk has yet to give, in their order, where
    /// `visible` tells which items its filter accepts.
    pub closed spec fn events(&self, visible: spec_fn(MenuItem<C>) -> bool) -> Seq<Event<'a, C>> {
        stack_events(self.stack@, visible)
    }

    /// Which items the filter of the walk accepts.
    pub open spec fn shown(&self) -> spec_fn(MenuItem<C>) -> bool {
        choose|visible: spec_fn(MenuItem<C>) -> bool| answers(self.predicate(), visible)
    }

    /// The events that the walk has yet to give, in their order.
    pub open spec fn pending(&self) -> Seq<Event<'a, C>> {
        self.events(self.shown())
    }

    /// No event has been asked for yet.
    pub closed spec fn fresh(&self) -> bool {
        !self.started
    }

    /// The root items of the menu that a fresh walk is about to visit.
    pub closed spec fn roots(&self) -> Seq<MenuItem<C>> {
        if self.stack@.len() > 0 {
            self.stack@[0].lst@
        } else {
            Seq::empty()
        }
    }

    /// A walk over `menu` that shows the items that `p` accepts. The root
    /// level is not reported as a scope.
    pub fn new(menu: &'a Menu<C>, p: F) -> (it: Self)
        requires
            decides(p),
        ensures
            it.fresh(),
            it.roots() == menu@,
            it.predicate() == p,
            forall|visible: spec_fn(MenuItem<C>) -> bool| #[trigger]
                it.events(visible) == level_events(menu@, visible, false),
    {
        let mut iterstack: Vec<IterNode<'a, C>> = Vec::new();
        let root = IterNode {
            lst: menu.get_rootitems(),
            idx: 0,
            did_enter_scope: true,
            did_leave_scope: true,
        };
        proof {
            assert forall|visible: spec_fn(MenuItem<C>) -> bool| #[trigger]
                stack_events(iterstack@.push(root), visible) == level_events(
                    menu@,
                    visible,
                    false,
                ) by {
                lemma_pushed_frame(iterstack@, root, visible);
            }
        }
        iterstack.push(root);
        MenuIter { stack: iterstack, myfilter: p, started: false }
    }

    /// Asks for the root level to be reported as a scope like every other
    /// level. This has an effect only before the first event is asked for;
    /// later it changes nothing.
    pub fn root_scope(&mut self) -> (r: &mut Self)
        ensures
            old(self).fresh() ==> r.fresh() && r.roots() == old(self).roots(),
            old(self).fresh() ==> r.predicate() == old(self).predicate(),
            old(self).fresh() ==> forall|visible: spec_fn(MenuItem<C>) -> bool| #[trigger]
                r.events(visible) == level_events(old(self).roots(), visible, true),
            !old(self).fresh() ==> *r == *old(self),
            *final(self) == *final(r),
    {
        proof {
            use_type_invariant(&*self);
        }
        if !self.started {
            let root = IterNode {
                lst: self.stack[0].lst,
                idx: 0,
                did_enter_scope: false,
                did_leave_scope: false,
            };
            let mut stack: Vec<IterNode<'a, C>> = Vec::new();
            proof {
                assert forall|visible: spec_fn(MenuItem<C>) -> bool| #[trigger]
                    stack_events(stack@.push(root), visible) == level_events(
                        root.lst@,
                        visible,
                        true,
                    ) by {
                    lemma_pushed_frame(stack@, root, visible);
                }
            }
            stack.push(root);
            core::mem::swap(&mut self.stack, &mut stack);
        }
        self
    }

    /// Takes the walk one event further. Items that the filter rejects and
    /// levels that are exhausted are passed without an event.
    fn advance(stack: &mut Vec<IterNode<'a, C>>, myfilter: &F) -> (ret: Option<Event<'a, C>>)
        requires
            decides(*myfilter),
            frames_ok(old(stack)@),
        ensures
            frames_ok(final(stack)@),
            forall|visible: spec_fn(MenuItem<C>) -> bool|
                answers(*myfilter, visible) ==> match ret {
                    Some(ev) => #[trigger] stack_events(old(stack)@, visible) == seq![ev]
                        + stack_events(final(stack)@, visible),
                    None => #[trigger] stack_events(old(stack)@, visible) == Seq::<
                        Event<'a, C>,
                    >::empty() && stack_events(final(stack)@, visible) == Seq::<
                        Event<'a, C>,
                    >::empty(),
                },
    {
        loop
            invariant
                decides(*myfilter),
                frames_ok(stack@),
                forall|visible: spec_fn(MenuItem<C>) -> bool|
                    answers(*myfilter, visible) ==> #[trigger] stack_events(stack@, visible)
                        == stack_events(old(stack)@, visible),
            decreases work(stack@),
        {
            if stack.len() == 0 {
                proof {
                    assert forall|visible: spec_fn(MenuItem<C>) -> bool|
                        answers(*myfilter, visible) implies #[trigger] stack_events(
                        old(stack)@,
                        visible,
                    ) == Seq::<Event<'a, C>>::empty() by {
                        assert(stack_events(stack@, visible) == stack_events(old(stack)@, visible));
                    }
                }
                return None;
            }
            let ghost before = stack@;
            let mut it = stack.pop().unwrap();
            let ghost below = stack@;
            let ghost top = it;
            proof {
                assert(before =~= below.push(top));
                lemma_pushed_work(below, top);
            }
            let lst: &'a Vec<MenuItem<C>> = it.lst;
            if it.idx < lst.len() {
                let mi: &'a MenuItem<C> = &lst[it.idx];
                if myfilter(mi) {
                    if !it.did_enter_scope {
                        it.did_enter_scope = true;
                        proof {
                            assert forall|visible: spec_fn(MenuItem<C>) -> bool|
                                answers(*myfilter, visible) implies #[trigger] stack_events(
                                old(stack)@,
                                visible,
                            ) == seq![Event::EnterScope] + stack_events(
                                below.push(it),
                                visible,
                            ) by {
                                lemma_pushed_frame(below, top, visible);
                                lemma_pushed_frame(below, it, visible);
                                assert(frame_events(top, visible) =~= seq![Event::EnterScope]
                                    + frame_events(it, visible));
                                assert(stack_events(before, visible) =~= seq![Event::EnterScope]
                                    + stack_events(below.push(it), visible));
                            }
                        }
                        stack.push(it);
                        return Some(Event::EnterScope);
                    }
                    it.idx = it.idx + 1;
                    stack.push(it);
                    let ghost middle = stack@;
                    let children = mi.children();
                    let ghost inner_frame = IterNode {
                        lst: children,
                        idx: 0,
                        did_enter_scope: false,
                        did_leave_scope: false,
                    };
                    if children.len() > 0 {
                        let inner = IterNode {
                            lst: children,
                            idx: 0,
                            did_enter_scope: false,
                            did_leave_scope: false,
                        };
                        stack.push(inner);
                    }
                    proof {
                        assert forall|visible: spec_fn(MenuItem<C>) -> bool|
                            answers(*myfilter, visible) implies #[trigger] stack_events(
                            old(stack)@,
                            visible,
                        ) == seq![Event::MenuItem(mi)] + stack_events(stack@, visible) by {
                            lemma_pushed_frame(below, top, visible);
                            lemma_pushed_frame(below, it, visible);
                            let below_events = level_events(mi@.children, visible, true);
                            if children@.len() > 0 {
                                lemma_pushed_frame(middle, inner_frame, visible);
                                assert(frame_events(inner_frame, visible) =~= below_events);
                            } else {
                                assert(below_events =~= Seq::<Event<'a, C>>::empty());
                            }
                            assert(stack_events(stack@, visible) =~= below_events + stack_events(
                                middle,
                                visible,
                            ));
                            assert(frame_events(top, visible) =~= seq![Event::MenuItem(mi)]
                                + below_events + frame_events(it, visible));
                            assert(stack_events(before, visible) =~= seq![Event::MenuItem(mi)]
                                + stack_events(stack@, visible));
                        }
                    }
                    return Some(Event::MenuItem(mi));
                } else {
                    it.idx = it.idx + 1;
                    proof {
                        lemma_pushed_work(below, it);
                        assert forall|visible: spec_fn(MenuItem<C>) -> bool|
                            answers(*myfilter, visible) implies #[trigger] stack_events(
                            below.push(it),
                            visible,
                        ) == stack_events(old(stack)@, visible) by {
                            lemma_pushed_frame(below, top, visible);
                            lemma_pushed_frame(below, it, visible);
                            assert(frame_events(top, visible) =~= frame_events(it, visible));
                        }
                    }
                    stack.push(it);
                }
            } else {
                if it.did_enter_scope && !it.did_leave_scope {
                    it.did_leave_scope = true;
                    proof {
                        assert forall|visible: spec_fn(MenuItem<C>) -> bool|
                            answers(*myfilter, visible) implies #[trigger] stack_events(
                            old(stack)@,
                            visible,
                        ) == seq![Event::LeaveScope] + stack_events(below.push(it), visible) by {
                            lemma_pushed_frame(below, top, visible);
                            lemma_pushed_frame(below, it, visible);
                            assert(frame_events(top, visible) =~= seq![Event::LeaveScope]
                                + frame_events(it, visible));
                            assert(stack_events(before, visible) =~= seq![Event::LeaveScope]
                                + stack_events(below.push(it), visible));
                        }
                    }
                    stack.push(it);
                    return Some(Event::LeaveScope);
                }
                proof {
                    assert forall|visible: spec_fn(MenuItem<C>) -> bool|
                        answers(*myfilter, visible) implies #[trigger] stack_events(
                        below,
                        visible,
                    ) == stack_events(old(stack)@, visible) by {
                        lemma_pushed_frame(below, top, visible);
                        assert(frame_events(top, visible) =~= Seq::<Event<'a, C>>::empty());
                        assert(stack_events(before, visible) =~= stack_events(below, visible));
                    }
                }
            }
        }
    }
}

impl<C> Menu<C> where C: Clone + Default {
    /// A depth-first walk over the whole menu, with every item visible.
    pub fn iter_hier(&self) -> (it: MenuIter<'_, C, impl Fn(&MenuItem<C>) -> bool>)
        ensures
            it.fresh(),
            it.roots() == self@,
            answers(it.predicate(), all_shown()),
            forall|visible: spec_fn(MenuItem<C>) -> bool| #[trigger]
                it.events(visible) == level_events(self@, visible, false),
    {
        let all = |item: &MenuItem<C>| -> (visible: bool)
            ensures
                visible,
            { true };
        assert(answers(all, all_shown()));
        MenuIter::new(self, all)
    }

    /// A depth-first walk over the menu that shows the items that `p`
    /// accepts. An item that `p` rejects is passed over with everything below
    /// it.
    pub fn filtiter_hier<F>(&self, p: F) -> (it: MenuIter<'_, C, F>) where
        F: Fn(&MenuItem<C>) -> bool,

        requires
            decides(p),
        ensures
            it.fresh(),
            it.roots() == self@,
            it.predicate() == p,
            forall|visible: spec_fn(MenuItem<C>) -> bool| #[trigger]
                it.events(visible) == level_events(self@, visible, false),
    {
        MenuIter::new(self, p)
    }
}

impl<'a, C, F> Iterator for MenuIter<'a, C, F> where C: Clone + Default, F: Fn(&MenuItem<C>) -> bool {
    type Item = Event<'a, C>;

    /// Gives the next event of the walk, or `None` when the walk has ended.
    fn next(&mut self) -> (ret: Option<Event<'a, C>>)
        ensures
            !final(self).fresh(),
            final(self).predicate() == old(self).predicate(),
            forall|visible: spec_fn(MenuItem<C>) -> bool|
                answers(old(self).predicate(), visible) ==> match ret {
                    Some(ev) => #[trigger] old(self).events(visible) == seq![ev]
                        + final(self).events(visible),
                    None => #[trigger] old(self).events(visible) == Seq::<Event<'a, C>>::empty()
                        && final(self).events(visible) == Seq::<Event<'a, C>>::empty(),
                },
    {
        proof {
            use_type_invariant(&*self);
        }
        self.started = true;
        let mut stack: Vec<IterNode<'a, C>> = Vec::new();
        core::mem::swap(&mut self.stack, &mut stack);
        let ret = Self::advance(&mut stack, &self.myfilter);
        core::mem::swap(&mut self.stack, &mut stack);
        proof {
            let shown = old(self).shown();
            assert(answers(self.myfilter, shown));
            if ret is Some {
                assert((seq![ret->0] + self.events(shown)).drop_first() =~= self.events(shown));
            }
        }
        ret
    }
}

impl<'a, C, F> IteratorSpecImpl for MenuIter<'a, C, F> where C: Clone + Default, F: Fn(&MenuItem<C>) -> bool {
    open spec fn obeys_prophetic_iter_laws(&self) -> bool {
        true
    }

    open spec fn remaining(&self) -> Seq<Self::Item> {
        self.pending()
    }

    open spec fn will_return_none(&self) -> bool {
        true
    }

    open spec fn decrease(&self) -> Option<nat> {
        Some(self.pending().len())
    }

    open spec fn initial_value_relation(&self, init: &Self) -> bool {
        self.pending() == init.pending()
    }

    open spec fn peek(&self, index: int) -> Option<Self::Item> {
        if 0 <= index < self.pending().len() {
            Some(self.pending()[index])
        } else {
            None
        }
    }
}

} // verus!
