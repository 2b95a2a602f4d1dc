//! The order of siblings: ascending by weight, ties broken by title.

use vstd::prelude::*;
use vstd::multiset::group_multiset_axioms;
use vstd::seq_lib::{group_to_multiset_ensures, to_multiset_build, to_multiset_insert};
use std::cmp::Ordering;
use crate::menuitem::{MenuItem, Node};

verus! {

/// `a` comes before `b` in the code charts.
pub open spec fn char_before(a: char, b: char) -> bool {
    (a as u32) < (b as u32)
}

/// `a` comes strictly before `b` in lexicographic order: at the first place
/// where they differ `a` has the smaller character, or `a` ends there and `b`
/// goes on.
pub open spec fn text_before(a: Seq<char>, b: Seq<char>) -> bool
    decreases a.len(),
{
    if b.len() == 0 {
        false
    } else if a.len() == 0 {
        true
    } else if a[0] == b[0] {
        text_before(a.drop_first(), b.drop_first())
    } else {
        char_before(a[0], b[0])
    }
}

/// Of two different characters one comes before the other.
pub proof fn lemma_char_before_total(a: char, b: char)
    ensures
        a == b || char_before(a, b) || char_before(b, a),
{
    assert((a as u32) as char == a);
    assert((b as u32) as char == b);
}

/// No text comes before itself.
pub proof fn lemma_text_before_irreflexive(a: Seq<char>)
    ensures
        !text_before(a, a),
    decreases a.len(),
{
    if a.len() > 0 {
        lemma_text_before_irreflexive(a.drop_first());
    }
}

/// Of two different texts one comes before the other.
pub proof fn lemma_text_before_total(a: Seq<char>, b: Seq<char>)
    ensures
        a == b || text_before(a, b) || text_before(b, a),
    decreases a.len(),
{
    if a.len() == 0 || b.len() == 0 {
        if a.len() == 0 && b.len() == 0 {
            assert(a =~= b);
        }
    } else if a[0] == b[0] {
        lemma_text_before_total(a.drop_first(), b.drop_first());
        if a.drop_first() == b.drop_first() {
            assert(a.len() == a.drop_first().len() + 1);
            assert(b.len() == b.drop_first().len() + 1);
            assert forall|i: int| 0 <= i < a.len() implies a[i] == b[i] by {
                if i > 0 {
                    assert(a[i] == a.drop_first()[i - 1]);
                    assert(b[i] == b.drop_first()[i - 1]);
                }
            }
            assert(a =~= b);
        }
    } else {
        lemma_char_before_total(a[0], b[0]);
    }
}

/// No two texts come before each other.
pub proof fn lemma_text_before_asymmetric(a: Seq<char>, b: Seq<char>)
    requires
        text_before(a, b),
    ensures
        !text_before(b, a),
    decreases a.len(),
{
    if a.len() > 0 && b.len() > 0 && a[0] == b[0] {
        lemma_text_before_asymmetric(a.drop_first(), b.drop_first());
    }
}

/// Coming before is transitive.
pub proof fn lemma_text_before_transitive(a: Seq<char>, b: Seq<char>, c: Seq<char>)
    requires
        text_before(a, b),
        text_before(b, c),
    ensures
        text_before(a, c),
    decreases a.len(),
{
    if a.len() > 0 && a[0] == b[0] && b[0] == c[0] {
        lemma_text_before_transitive(a.drop_first(), b.drop_first(), c.drop_first());
    }
}

/// `str::cmp` of the standard library: strings are ordered lexicographically
/// by their bytes, which for UTF-8 is the order of their characters' code
/// points. The result is `Less` exactly when `a` comes before `b`, `Greater`
/// exactly when `b` comes before `a`, and `Equal` exactly when the two hold
/// the same characters.
#[verifier::external_body]
pub(crate) fn compare_text(a: &str, b: &str) -> (o: Ordering)
    ensures
        o == Ordering::Less <==> text_before(a@, b@),
        o == Ordering::Greater <==> text_before(b@, a@),
        o == Ordering::Equal <==> a@ == b@,
{
    a.cmp(b)
}

/// `a` goes strictly before `b` among siblings: it has the smaller weight, or
/// the same weight and the title that comes first.
pub open spec fn precedes<C: Clone + Default>(a: Node<C>, b: Node<C>) -> bool {
    a.weight < b.weight || (a.weight == b.weight && text_before(a.title, b.title))
}

/// `a` may stand before `b` among siblings: ascending by weight, and for
/// equal weights ascending by title.
pub open spec fn in_order<C: Clone + Default>(a: Node<C>, b: Node<C>) -> bool {
    a.weight < b.weight || (a.weight == b.weight && (a.title == b.title || text_before(
        a.title,
        b.title,
    )))
}

/// The items stand in sibling order.
pub open spec fn ordered<C: Clone + Default>(s: Seq<MenuItem<C>>) -> bool {
    forall|i: int, j: int| 0 <= i < j < s.len() ==> in_order((#[trigger] s[i])@, (#[trigger] s[j])@)
}

/// Of two items, one may stand before the other: where `a` does not go
/// strictly before `b`, `b` may stand before `a`.
pub proof fn lemma_in_order_total<C: Clone + Default>(a: Node<C>, b: Node<C>)
    ensures
        precedes(a, b) || in_order(b, a),
        precedes(a, b) ==> in_order(a, b) && !in_order(b, a),
{
    lemma_text_before_total(a.title, b.title);
    lemma_text_before_irreflexive(a.title);
    if text_before(a.title, b.title) {
        lemma_text_before_asymmetric(a.title, b.title);
    }
}

/// Sibling order is transitive.
pub proof fn lemma_in_order_transitive<C: Clone + Default>(a: Node<C>, b: Node<C>, c: Node<C>)
    requires
        in_order(a, b),
        in_order(b, c),
    ensures
        in_order(a, c),
{
    if a.weight == b.weight && b.weight == c.weight && a.title != b.title && b.title != c.title {
        lemma_text_before_transitive(a.title, b.title, c.title);
    }
}

/// Whether `a` goes strictly before `b` among siblings.
pub fn goes_before<C: Clone + Default>(a: &MenuItem<C>, b: &MenuItem<C>) -> (r: bool)
    ensures
        r == precedes(a@, b@),
{
    match a.order_cmp(b) {
        Ordering::Less => true,
        _ => false,
    }
}

/// `after` holds the items of `before` in another arrangement: `from` tells
/// for every place in `after` the place in `before` from which its item
/// came, and no place of `before` is named twice.
pub open spec fn rearranged<C: Clone + Default>(
    before: Seq<MenuItem<C>>,
    after: Seq<MenuItem<C>>,
    from: Seq<int>,
) -> bool {
    &&& after.len() == before.len()
    &&& from.len() == after.len()
    &&& from.no_duplicates()
    &&& forall|k: int|
        0 <= k < after.len() ==> 0 <= (#[trigger] from[k]) < before.len() && after[k]
            == before[from[k]]
}

/// `from` keeps items that tie in weight and title in the order in which
/// they came.
pub open spec fn keeps_ties<C: Clone + Default>(after: Seq<MenuItem<C>>, from: Seq<int>) -> bool {
    forall|i: int, j: int|
        0 <= i < j < after.len() && (#[trigger] after[i])@.weight == (#[trigger] after[j])@.weight
            && after[i]@.title == after[j]@.title ==> from[i] < from[j]
}

/// Puts the items in sibling order. Nothing is added and nothing is lost,
/// and items that tie in weight and title keep the order in which they came.
pub fn sort_items<C: Clone + Default>(items: &mut Vec<MenuItem<C>>)
    ensures
        ordered(final(items)@),
        final(items)@.to_multiset() == old(items)@.to_multiset(),
        exists|from: Seq<int>|
            rearranged(old(items)@, final(items)@, from) && keeps_ties(final(items)@, from),
{
    broadcast use {group_to_multiset_ensures, group_multiset_axioms};

    let mut sorted: Vec<MenuItem<C>> = Vec::new();
    let ghost mut from: Seq<int> = Seq::empty();
    while items.len() > 0
        invariant
            ordered(sorted@),
            sorted@.to_multiset().add(items@.to_multiset()) == old(items)@.to_multiset(),
            items@ == old(items)@.take(items@.len() as int),
            items@.len() + sorted@.len() == old(items)@.len(),
            from.len() == sorted@.len(),
            from.no_duplicates(),
            forall|k: int|
                0 <= k < sorted@.len() ==> items@.len() <= (#[trigger] from[k]) < old(
                    items,
                )@.len() && sorted@[k] == old(items)@[from[k]],
            keeps_ties(sorted@, from),
        decreases items@.len(),
    {
        let ghost before = items@;
        let ghost from0 = from;
        let item = items.pop().unwrap();
        assert(before == items@.push(item));
        assert(item == old(items)@[items@.len() as int]);
        let mut at: usize = 0;
        while at < sorted.len() && goes_before(&sorted[at], &item)
            invariant
                at <= sorted@.len(),
                forall|k: int| 0 <= k < at ==> precedes((#[trigger] sorted@[k])@, item@),
            decreases sorted@.len() - at,
        {
            at = at + 1;
        }
        proof {
            let placed = sorted@.insert(at as int, item);
            let here = items@.len() as int;
            from = from0.insert(at as int, here);
            sorted@.insert_ensures(at as int, item);
            from0.insert_ensures(at as int, here);
            assert forall|i: int, j: int| 0 <= i < j < placed.len() implies in_order(
                (#[trigger] placed[i])@,
                (#[trigger] placed[j])@,
            ) by {
                if j == at {
                    lemma_in_order_total(placed[i]@, item@);
                } else if i == at {
                    lemma_in_order_total(sorted@[at as int]@, item@);
                    if j > at + 1 {
                        lemma_in_order_transitive(item@, sorted@[at as int]@, placed[j]@);
                    }
                }
            }
            to_multiset_insert(sorted@, at as int, item);
            to_multiset_build(items@, item);
            assert(placed.to_multiset().add(items@.to_multiset()) =~= sorted@.to_multiset().add(
                before.to_multiset(),
            ));
            assert(items@ =~= old(items)@.take(items@.len() as int));
            assert forall|k: int| 0 <= k < placed.len() implies here <= (#[trigger] from[k]) < old(
                items,
            )@.len() && placed[k] == old(items)@[from[k]] by {
                if k < at {
                    assert(from[k] == from0[k]);
                } else if k > at {
                    assert(from[k] == from0[k - 1]);
                    assert(placed[k] == sorted@[k - 1]);
                }
            }
            assert forall|i: int, j: int|
                0 <= i < from.len() && 0 <= j < from.len() && i != j implies from[i] != from[j] by {
                let i0 = if i < at { i } else { i - 1 };
                let j0 = if j < at { j } else { j - 1 };
                if i != at && j != at {
                    assert(from[i] == from0[i0]);
                    assert(from[j] == from0[j0]);
                } else if i == at {
                    assert(from[j] == from0[j0]);
                } else {
                    assert(from[i] == from0[i0]);
                }
            }
            assert forall|i: int, j: int|
                0 <= i < j < placed.len() && (#[trigger] placed[i])@.weight == (
                #[trigger] placed[j])@.weight && placed[i]@.title
                    == placed[j]@.title implies from[i] < from[j] by {
                let i0 = if i < at { i } else { i - 1 };
                let j0 = if j < at { j } else { j - 1 };
                if i == at {
                    assert(from[j] == from0[j0]);
                } else if j == at {
                    assert(placed[i] == sorted@[i]);
                    assert(precedes(sorted@[i]@, item@));
                    lemma_text_before_irreflexive(item@.title);
                } else {
                    assert(placed[i] == sorted@[i0]);
                    assert(placed[j] == sorted@[j0]);
                    assert(from[i] == from0[i0]);
                    assert(from[j] == from0[j0]);
                }
            }
        }
        sorted.insert(at, item);
    }
    *items = sorted;
    proof {
        assert(rearranged(old(items)@, items@, from) && keeps_ties(items@, from));
    }
}

} // verus!
