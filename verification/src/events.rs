//! What a depth-first walk over a menu reports, and what holds of it: which
//! events come in which order for given items, a given choice of visible items
//! and with or without a scope around the root level.

use vstd::prelude::*;
use crate::menuitem::MenuItem;
use crate::recfiltiter::Event;

verus! {

broadcast use MenuItem::lemma_children_decrease;

/// `visible` tells which items the filter accepts: the filter can be asked
/// about every item, and whenever it answers, it answers what `visible` says.
pub open spec fn answers<C: Clone + Default, F: Fn(&MenuItem<C>) -> bool>(
    filter: F,
    visible: spec_fn(MenuItem<C>) -> bool,
) -> bool {
    &&& forall|item: MenuItem<C>| #[trigger] call_requires(filter, (&item,))
    &&& forall|item: MenuItem<C>, answer: bool| #[trigger]
        call_ensures(filter, (&item,), answer) ==> answer == visible(item)
}

/// The filter decides on every item: it can be asked about each, and what it
/// answers depends on the item alone.
pub open spec fn decides<C: Clone + Default, F: Fn(&MenuItem<C>) -> bool>(filter: F) -> bool {
    exists|visible: spec_fn(MenuItem<C>) -> bool| answers(filter, visible)
}

/// Every item.
pub open spec fn all_shown<C: Clone + Default>() -> spec_fn(MenuItem<C>) -> bool {
    |item: MenuItem<C>| true
}

/// The events for the items of one level from place `from` on, without the
/// events that begin and end the level: each visible item is followed by the
/// events of the level below it.
pub open spec fn run_events<'a, C: Clone + Default>(
    items: Seq<MenuItem<C>>,
    from: int,
    visible: spec_fn(MenuItem<C>) -> bool,
) -> Seq<Event<'a, C>>
    decreases items, items.len() - from,
{
    if from < 0 || from >= items.len() {
        Seq::empty()
    } else if !visible(items[from]) {
        run_events(items, from + 1, visible)
    } else {
        seq![Event::MenuItem(&items[from])] + level_events(items[from]@.children, visible, true)
            + run_events(items, from + 1, visible)
    }
}

/// The events for one level of siblings with all that is below it. A level
/// without a visible item gives no event at all; one that is `scoped` and has
/// a visible item is enclosed in `EnterScope` and `LeaveScope`.
pub open spec fn level_events<'a, C: Clone + Default>(
    items: Seq<MenuItem<C>>,
    visible: spec_fn(MenuItem<C>) -> bool,
    scoped: bool,
) -> Seq<Event<'a, C>>
    decreases items, items.len() + 1,
{
    let body = run_events(items, 0, visible);
    if scoped && body.len() > 0 {
        seq![Event::EnterScope] + body + seq![Event::LeaveScope]
    } else {
        body
    }
}

/// How often `events` reports that a level begins.
pub open spec fn enters<'a, C: Clone + Default>(events: Seq<Event<'a, C>>) -> nat
    decreases events.len(),
{
    if events.len() == 0 {
        0
    } else if events.last() is EnterScope {
        enters(events.drop_last()) + 1
    } else {
        enters(events.drop_last())
    }
}

/// How often `events` reports that a level ends.
pub open spec fn leaves<'a, C: Clone + Default>(events: Seq<Event<'a, C>>) -> nat
    decreases events.len(),
{
    if events.len() == 0 {
        0
    } else if events.last() is LeaveScope {
        leaves(events.drop_last()) + 1
    } else {
        leaves(events.drop_last())
    }
}

/// The scopes in `events` are balanced: as many levels end as begin, and at
/// no point have more ended than begun.
pub open spec fn balanced<'a, C: Clone + Default>(events: Seq<Event<'a, C>>) -> bool {
    &&& enters(events) == leaves(events)
    &&& forall|k: int|
        0 <= k <= events.len() ==> enters(#[trigger] events.take(k)) >= leaves(events.take(k))
}

/// One event alone begins or ends one level, or none.
pub proof fn lemma_counts_one<'a, C: Clone + Default>(event: Event<'a, C>)
    ensures
        enters(seq![event]) == (if event is EnterScope {
            1nat
        } else {
            0nat
        }),
        leaves(seq![event]) == (if event is LeaveScope {
            1nat
        } else {
            0nat
        }),
{
    let one = seq![event];
    assert(one.drop_last() =~= Seq::empty());
    assert(one.last() == event);
    assert(enters(one.drop_last()) == 0);
    assert(leaves(one.drop_last()) == 0);
}

/// The beginnings and the ends in two runs of events add up.
pub proof fn lemma_counts_add<'a, C: Clone + Default>(
    first: Seq<Event<'a, C>>,
    second: Seq<Event<'a, C>>,
)
    ensures
        enters(first + second) == enters(first) + enters(second),
        leaves(first + second) == leaves(first) + leaves(second),
    decreases second.len(),
{
    if second.len() == 0 {
        assert(first + second =~= first);
    } else {
        assert((first + second).drop_last() =~= first + second.drop_last());
        assert((first + second).last() == second.last());
        lemma_counts_add(first, second.drop_last());
    }
}

/// Two balanced runs of events, one after the other, are balanced.
pub proof fn lemma_balanced_add<'a, C: Clone + Default>(
    first: Seq<Event<'a, C>>,
    second: Seq<Event<'a, C>>,
)
    requires
        balanced(first),
        balanced(second),
    ensures
        balanced(first + second),
{
    let both = first + second;
    lemma_counts_add(first, second);
    assert forall|k: int| 0 <= k <= both.len() implies enters(#[trigger] both.take(k)) >= leaves(
        both.take(k),
    ) by {
        if k <= first.len() {
            assert(both.take(k) =~= first.take(k));
        } else {
            assert(both.take(k) =~= first + second.take(k - first.len()));
            lemma_counts_add(first, second.take(k - first.len()));
        }
    }
}

/// A balanced run of events stays balanced when it is enclosed in the
/// beginning and the end of a level.
pub proof fn lemma_balanced_scope<'a, C: Clone + Default>(body: Seq<Event<'a, C>>)
    requires
        balanced(body),
    ensures
        balanced(seq![Event::EnterScope] + body + seq![Event::LeaveScope]),
{
    let open = seq![Event::<'a, C>::EnterScope];
    let close = seq![Event::<'a, C>::LeaveScope];
    let all = open + body + close;
    lemma_counts_one(Event::<'a, C>::EnterScope);
    lemma_counts_one(Event::<'a, C>::LeaveScope);
    lemma_counts_add(open, body);
    lemma_counts_add(open + body, close);
    assert forall|k: int| 0 <= k <= all.len() implies enters(#[trigger] all.take(k)) >= leaves(
        all.take(k),
    ) by {
        if k == 0 {
            assert(all.take(k) =~= Seq::empty());
        } else if k <= body.len() + 1 {
            assert(all.take(k) =~= open + body.take(k - 1));
            lemma_counts_add(open, body.take(k - 1));
        } else {
            assert(all.take(k) =~= all);
        }
    }
}

/// The events of a walk are balanced, whatever the menu, whichever items are
/// visible, and whether the root level is reported as a scope or not: as
/// many levels end as begin, and at no point have more ended than begun.
pub proof fn lemma_walk_balanced<'a, C: Clone + Default>(
    items: Seq<MenuItem<C>>,
    visible: spec_fn(MenuItem<C>) -> bool,
    scoped: bool,
)
    ensures
        balanced(level_events(items, visible, scoped)),
    decreases items, items.len() + 1,
{
    lemma_run_balanced(items, 0, visible);
    if scoped && run_events(items, 0, visible).len() > 0 {
        lemma_balanced_scope(run_events(items, 0, visible));
    }
}

/// The events of the items of one level from place `from` on are balanced.
pub proof fn lemma_run_balanced<'a, C: Clone + Default>(
    items: Seq<MenuItem<C>>,
    from: int,
    visible: spec_fn(MenuItem<C>) -> bool,
)
    ensures
        balanced(run_events(items, from, visible)),
    decreases items, items.len() - from,
{
    if from < 0 || from >= items.len() {
        assert(Seq::<Event<'a, C>>::empty().take(0) =~= Seq::empty());
    } else {
        lemma_run_balanced(items, from + 1, visible);
        if visible(items[from]) {
            let item = seq![Event::<'a, C>::MenuItem(&items[from])];
            assert(balanced(item)) by {
                lemma_counts_one(Event::MenuItem(&items[from]));
                assert forall|k: int| 0 <= k <= item.len() implies enters(
                    #[trigger] item.take(k),
                ) >= leaves(item.take(k)) by {
                    if k == 0 {
                        assert(item.take(k) =~= Seq::empty());
                    } else {
                        assert(item.take(k) =~= item);
                    }
                }
            }
            lemma_walk_balanced(items[from]@.children, visible, true);
            lemma_balanced_add(item, level_events(items[from]@.children, visible, true));
            lemma_balanced_add(
                item + level_events(items[from]@.children, visible, true),
                run_events(items, from + 1, visible),
            );
        }
    }
}

/// A level gives no event at all exactly when none of its items is visible:
/// neither an item nor the beginning or the end of a scope is reported for
/// it, and nothing of what is below it.
pub proof fn lemma_silent_level<'a, C: Clone + Default>(
    items: Seq<MenuItem<C>>,
    visible: spec_fn(MenuItem<C>) -> bool,
    scoped: bool,
)
    ensures
        level_events(items, visible, scoped).len() == 0 <==> forall|i: int|
            0 <= i < items.len() ==> !visible(#[trigger] items[i]),
{
    lemma_silent_run(items, 0, visible);
}

/// The items of one level from place `from` on give no event exactly when
/// none of them is visible.
pub proof fn lemma_silent_run<'a, C: Clone + Default>(
    items: Seq<MenuItem<C>>,
    from: int,
    visible: spec_fn(MenuItem<C>) -> bool,
)
    requires
        0 <= from,
    ensures
        run_events(items, from, visible).len() == 0 <==> forall|i: int|
            from <= i < items.len() ==> !visible(#[trigger] items[i]),
    decreases items.len() - from,
{
    if from < items.len() {
        lemma_silent_run(items, from + 1, visible);
    }
}

/// A filter that rejects every item leaves nothing of the walk: no item is
/// reported, and no scope.
pub proof fn lemma_reject_all_silent<'a, C: Clone + Default>(
    items: Seq<MenuItem<C>>,
    visible: spec_fn(MenuItem<C>) -> bool,
    scoped: bool,
)
    requires
        forall|item: MenuItem<C>| !#[trigger] visible(item),
    ensures
        level_events(items, visible, scoped) == Seq::<Event<'a, C>>::empty(),
{
    lemma_silent_level(items, visible, scoped);
    assert(level_events(items, visible, scoped) =~= Seq::<Event<'a, C>>::empty());
}

/// Every beginning of a level in `events` is followed at once by an item:
/// no level is begun for nothing.
pub open spec fn opens_on_items<'a, C: Clone + Default>(events: Seq<Event<'a, C>>) -> bool {
    forall|k: int|
        0 <= k < events.len() && (#[trigger] events[k]) is EnterScope ==> k + 1 < events.len()
            && events[k + 1] is MenuItem
}

/// Where the items of a level from place `from` on give any event, the
/// first of them is an item.
pub proof fn lemma_run_starts_with_item<'a, C: Clone + Default>(
    items: Seq<MenuItem<C>>,
    from: int,
    visible: spec_fn(MenuItem<C>) -> bool,
)
    requires
        0 <= from,
    ensures
        run_events::<C>(items, from, visible).len() > 0 ==> run_events::<C>(
            items,
            from,
            visible,
        )[0] is MenuItem,
    decreases items.len() - from,
{
    if from < items.len() && !visible(items[from]) {
        lemma_run_starts_with_item::<C>(items, from + 1, visible);
    }
}

/// Of two runs of events in which every level opens on an item, the one
/// after the other is such a run.
pub proof fn lemma_opens_add<'a, C: Clone + Default>(
    first: Seq<Event<'a, C>>,
    second: Seq<Event<'a, C>>,
)
    requires
        opens_on_items(first),
        opens_on_items(second),
    ensures
        opens_on_items(first + second),
{
    let both = first + second;
    assert forall|k: int| 0 <= k < both.len() && (#[trigger] both[k]) is EnterScope implies k + 1
        < both.len() && both[k + 1] is MenuItem by {
        if k < first.len() {
            assert(first[k] is EnterScope);
            assert(both[k + 1] == first[k + 1]);
        } else {
            assert(second[k - first.len()] is EnterScope);
            assert(both[k + 1] == second[k + 1 - first.len()]);
        }
    }
}

/// In the events of a walk every beginning of a level is followed at once
/// by an item of that level: a scope is reported only where it has a visible
/// item to enclose.
pub proof fn lemma_walk_opens_on_items<'a, C: Clone + Default>(
    items: Seq<MenuItem<C>>,
    visible: spec_fn(MenuItem<C>) -> bool,
    scoped: bool,
)
    ensures
        opens_on_items(level_events::<C>(items, visible, scoped)),
    decreases items, items.len() + 1,
{
    let body = run_events::<C>(items, 0, visible);
    lemma_run_opens_on_items::<C>(items, 0, visible);
    if scoped && body.len() > 0 {
        lemma_run_starts_with_item::<C>(items, 0, visible);
        let open = seq![Event::<C>::EnterScope];
        let close = seq![Event::<C>::LeaveScope];
        let all = open + body + close;
        assert forall|k: int| 0 <= k < all.len() && (#[trigger] all[k]) is EnterScope implies k
            + 1 < all.len() && all[k + 1] is MenuItem by {
            if k == 0 {
                assert(all[1] == body[0]);
            } else if k <= body.len() {
                assert(all[k] == body[k - 1]);
                assert(body[k - 1] is EnterScope);
                assert(all[k + 1] == body[k]);
            }
        }
    }
}

/// The same of the events of the items of one level from place `from` on.
pub proof fn lemma_run_opens_on_items<'a, C: Clone + Default>(
    items: Seq<MenuItem<C>>,
    from: int,
    visible: spec_fn(MenuItem<C>) -> bool,
)
    ensures
        opens_on_items(run_events::<C>(items, from, visible)),
    decreases items, items.len() - from,
{
    if 0 <= from < items.len() {
        lemma_run_opens_on_items::<C>(items, from + 1, visible);
        if visible(items[from]) {
            let item = seq![Event::<C>::MenuItem(&items[from])];
            lemma_walk_opens_on_items::<C>(items[from]@.children, visible, true);
            lemma_opens_add(item, level_events::<C>(items[from]@.children, visible, true));
            lemma_opens_add(
                item + level_events::<C>(items[from]@.children, visible, true),
                run_events::<C>(items, from + 1, visible),
            );
        }
    }
}

} // verus!
