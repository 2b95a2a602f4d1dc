//! The order in which parents receive their children.

use vstd::prelude::*;
use std::collections::VecDeque;
use vstd::seq_lib::lemma_no_dup_in_concat;
use crate::assembly::links::{kid_lists, lemma_pushed, linked, occurs_before, occurs_from};

verus! {

/// `order` lists places that have children so that every one of them
/// stands before those of its children that have children themselves. It
/// holds every root that has children, no place twice, and beside the
/// roots only places whose parent stands earlier in it.
pub(crate) open spec fn parents_first(
    roots: Seq<usize>,
    kids: Seq<Seq<usize>>,
    up: Seq<Option<usize>>,
    order: Seq<usize>,
) -> bool {
    &&& order.no_duplicates()
    &&& forall|j: int|
        0 <= j < order.len() ==> (#[trigger] order[j]) < kids.len() && kids[order[j] as int].len()
            > 0
    &&& forall|k: int|
        0 <= k < roots.len() && kids[(#[trigger] roots[k]) as int].len() > 0 ==> order.contains(
            roots[k],
        )
    &&& forall|j: int|
        0 <= j < order.len() && up[(#[trigger] order[j]) as int] is Some ==> occurs_before(
            order,
            up[order[j] as int].unwrap(),
            j,
        )
    &&& forall|j: int, m: int|
        0 <= j < order.len() && 0 <= m < kids[order[j] as int].len() && kids[(
        #[trigger] kids[order[j] as int][m]) as int].len() > 0 ==> occurs_from(
            order,
            kids[order[j] as int][m],
            j + 1,
        )
}

/// What holds of the walk while it runs: `order` holds the places
/// visited so far, `queue` those that wait.
pub(crate) open spec fn walking(
    roots: Seq<usize>,
    kids: Seq<Seq<usize>>,
    up: Seq<Option<usize>>,
    order: Seq<usize>,
    queue: Seq<usize>,
) -> bool {
    &&& order.no_duplicates()
    &&& queue.no_duplicates()
    &&& forall|j: int, k: int|
        0 <= j < order.len() && 0 <= k < queue.len() ==> (#[trigger] order[j]) != (
        #[trigger] queue[k])
    &&& forall|j: int|
        0 <= j < order.len() ==> (#[trigger] order[j]) < kids.len() && kids[order[j] as int].len()
            > 0
    &&& forall|k: int|
        0 <= k < queue.len() ==> (#[trigger] queue[k]) < kids.len() && kids[queue[k] as int].len()
            > 0
    &&& forall|j: int|
        0 <= j < order.len() && up[(#[trigger] order[j]) as int] is Some ==> occurs_before(
            order,
            up[order[j] as int].unwrap(),
            j,
        )
    &&& forall|k: int|
        0 <= k < queue.len() && up[(#[trigger] queue[k]) as int] is Some ==> order.contains(
            up[queue[k] as int].unwrap(),
        )
    &&& forall|k: int|
        0 <= k < roots.len() && kids[(#[trigger] roots[k]) as int].len() > 0 ==> order.contains(
            roots[k],
        ) || queue.contains(roots[k])
}

/// The children of `order[j]` that have children themselves have been
/// visited after it or wait in the queue; of the last place in `order`
/// this is claimed for its first `m` children only.
pub(crate) open spec fn children_queued(
    kids: Seq<Seq<usize>>,
    order: Seq<usize>,
    queue: Seq<usize>,
    j: int,
    m: int,
) -> bool {
    forall|i: int|
        0 <= i < m && i < kids[order[j] as int].len() && kids[(
        #[trigger] kids[order[j] as int][i]) as int].len() > 0 ==> occurs_from(
            order,
            kids[order[j] as int][i],
            j + 1,
        ) || queue.contains(kids[order[j] as int][i])
}

/// A list of places below `n` that names none twice has at most `n`
/// entries.
pub(crate) proof fn lemma_distinct_below(s: Seq<usize>, n: nat)
    requires
        s.no_duplicates(),
        forall|i: int| 0 <= i < s.len() ==> (#[trigger] s[i]) < n,
    ensures
        s.len() <= n,
    decreases n,
{
    if s.len() > 0 {
        assert(s[0] < n);
        let top = (n - 1) as usize;
        if exists|i: int| 0 <= i < s.len() && s[i] == top {
            let i = choose|i: int| 0 <= i < s.len() && s[i] == top;
            let rest = s.remove(i);
            s.remove_ensures(i);
            assert forall|k: int| 0 <= k < rest.len() implies (#[trigger] rest[k]) < n - 1 by {
                if k < i {
                    assert(rest[k] == s[k]);
                } else {
                    assert(rest[k] == s[k + 1]);
                }
            }
            assert forall|a: int, b: int|
                0 <= a < rest.len() && 0 <= b < rest.len() && a != b implies rest[a]
                != rest[b] by {
                let a0 = if a < i { a } else { a + 1 };
                let b0 = if b < i { b } else { b + 1 };
                assert(rest[a] == s[a0]);
                assert(rest[b] == s[b0]);
            }
            lemma_distinct_below(rest, (n - 1) as nat);
        } else {
            assert forall|k: int| 0 <= k < s.len() implies (#[trigger] s[k]) < n - 1 by {
                assert(s[k] != top);
            }
            lemma_distinct_below(s, (n - 1) as nat);
        }
    }
}

/// What the order and the queue hold together is unchanged when the last
/// place that waits is moved to the end of the order.
proof fn lemma_moved(order: Seq<usize>, queue: Seq<usize>, x: usize)
    requires
        queue.len() > 0,
        order.contains(x) || queue.contains(x),
    ensures
        order.push(queue.last()).contains(x) || queue.drop_last().contains(x),
{
    let moved = order.push(queue.last());
    if order.contains(x) {
        let w = choose|w: int| 0 <= w < order.len() && order[w] == x;
        assert(moved[w] == x);
    } else {
        let w = choose|w: int| 0 <= w < queue.len() && queue[w] == x;
        if w == queue.len() - 1 {
            assert(moved[order.len() as int] == x);
        } else {
            assert(queue.drop_last()[w] == x);
        }
    }
}

/// The converse of `lemma_moved`.
proof fn lemma_moved_back(order: Seq<usize>, queue: Seq<usize>, x: usize)
    requires
        queue.len() > 0,
        order.push(queue.last()).contains(x) || queue.drop_last().contains(x),
    ensures
        order.contains(x) || queue.contains(x),
{
    let moved = order.push(queue.last());
    if moved.contains(x) {
        let w = choose|w: int| 0 <= w < moved.len() && moved[w] == x;
        if w < order.len() {
            assert(order[w] == x);
        } else {
            assert(queue[queue.len() - 1] == x);
        }
    } else {
        let w = choose|w: int| 0 <= w < queue.drop_last().len() && queue.drop_last()[w] == x;
        assert(queue[w] == x);
    }
}

/// Computes the order in which parents receive their children: starting from
/// the roots that have children, it visits a place and then lets those of
/// its children wait that have children themselves. Places that no chain
/// of parents ties to a root are never visited.
pub(crate) fn parent_order(
    roots: &Vec<usize>,
    kids: &Vec<Vec<usize>>,
    Ghost(up): Ghost<Seq<Option<usize>>>,
) -> (order: Vec<usize>)
    requires
        linked(roots@, kid_lists(kids@), up),
    ensures
        parents_first(roots@, kid_lists(kids@), up, order@),
{
    let ghost kl = kid_lists(kids@);
    let mut queue: VecDeque<usize> = VecDeque::new();
    let mut order: Vec<usize> = Vec::new();
    let mut i: usize = 0;
    while i < roots.len()
        invariant
            i <= roots@.len(),
            kl == kid_lists(kids@),
            linked(roots@, kl, up),
            order@.len() == 0,
            queue@.no_duplicates(),
            forall|k: int|
                0 <= k < queue@.len() ==> occurs_before(roots@, #[trigger] queue@[k], i as int)
                    && kl[queue@[k] as int].len() > 0,
            forall|k: int|
                0 <= k < i && kl[(#[trigger] roots@[k]) as int].len() > 0 ==> queue@.contains(
                    roots@[k],
                ),
        decreases roots@.len() - i,
    {
        let r = roots[i];
        let ghost queue0 = queue@;
        if kids[r].len() > 0 {
            proof {
                assert forall|k: int| 0 <= k < queue@.len() implies queue@[k] != r by {
                    assert(occurs_before(roots@, queue@[k], i as int));
                }
            }
            queue.push_back(r);
        }
        i = i + 1;
        proof {
            assert forall|k: int| 0 <= k < queue@.len() implies occurs_before(
                roots@,
                #[trigger] queue@[k],
                i as int,
            ) && kl[queue@[k] as int].len() > 0 by {
                if k < queue0.len() {
                    assert(queue@[k] == queue0[k]);
                    assert(occurs_before(roots@, queue0[k], i - 1));
                    let w = choose|w: int|
                        0 <= w < i - 1 && w < roots@.len() && roots@[w] == queue0[k];
                    assert(roots@[w] == queue@[k]);
                } else {
                    assert(roots@[i - 1] == queue@[k]);
                }
            }
            assert forall|k: int| 0 <= k < i && kl[(#[trigger] roots@[k]) as int].len()
                > 0 implies queue@.contains(roots@[k]) by {
                if queue@ != queue0 {
                    lemma_pushed(queue0, r, roots@[k]);
                }
            }
        }
    }
    assert(walking(roots@, kl, up, order@, queue@)) by {
        assert forall|k: int| 0 <= k < queue@.len() implies !(up[(
        #[trigger] queue@[k]) as int] is Some) by {
            assert(occurs_before(roots@, queue@[k], i as int));
        }
    }
    while queue.len() > 0
        invariant
            kl == kid_lists(kids@),
            linked(roots@, kl, up),
            walking(roots@, kl, up, order@, queue@),
            forall|j: int|
                0 <= j < order@.len() ==> children_queued(
                    kl,
                    order@,
                    queue@,
                    j,
                    kl[order@[j] as int].len() as int,
                ),
        decreases kl.len() - order@.len(),
    {
        proof {
            lemma_no_dup_in_concat(order@, queue@);
            lemma_distinct_below(order@ + queue@, kl.len());
        }
        let ghost order0 = order@;
        let ghost queue0 = queue@;
        let id = queue.pop_back().unwrap();
        order.push(id);
        let ghost last = order@.len() - 1;
        proof {
            assert(queue0[queue0.len() - 1] == id);
            assert(walking(roots@, kl, up, order@, queue@)) by {
                assert forall|j: int, k: int|
                    0 <= j < order@.len() && 0 <= k < queue@.len() implies (#[trigger] order@[j])
                    != (#[trigger] queue@[k]) by {
                    assert(queue@[k] == queue0[k]);
                    if j < last {
                        assert(order@[j] == order0[j]);
                    }
                }
                assert forall|j: int|
                    0 <= j < order@.len() && up[(#[trigger] order@[j]) as int] is Some implies occurs_before(
                    order@,
                    up[order@[j] as int].unwrap(),
                    j,
                ) by {
                    let q = up[order@[j] as int].unwrap();
                    if j < last {
                        assert(order@[j] == order0[j]);
                        assert(occurs_before(order0, q, j));
                        let w = choose|w: int| 0 <= w < j && w < order0.len() && order0[w] == q;
                        assert(order@[w] == q);
                    } else {
                        assert(order0.contains(q));
                        let w = choose|w: int| 0 <= w < order0.len() && order0[w] == q;
                        assert(order@[w] == q);
                    }
                }
                assert forall|k: int|
                    0 <= k < queue@.len() && up[(#[trigger] queue@[k]) as int] is Some implies order@.contains(
                    up[queue@[k] as int].unwrap(),
                ) by {
                    let q = up[queue@[k] as int].unwrap();
                    assert(queue@[k] == queue0[k]);
                    assert(order0.contains(q));
                    let w = choose|w: int| 0 <= w < order0.len() && order0[w] == q;
                    assert(order@[w] == q);
                }
                assert forall|k: int|
                    0 <= k < roots@.len() && kl[(#[trigger] roots@[k]) as int].len()
                        > 0 implies order@.contains(roots@[k]) || queue@.contains(roots@[k]) by {
                    lemma_moved(order0, queue0, roots@[k]);
                }
            }
            assert forall|j: int| 0 <= j < last implies children_queued(
                kl,
                order@,
                queue@,
                j,
                kl[order@[j] as int].len() as int,
            ) by {
                assert(order@[j] == order0[j]);
                assert(children_queued(kl, order0, queue0, j, kl[order0[j] as int].len() as int));
                assert forall|i: int|
                    0 <= i < kl[order@[j] as int].len() && kl[(
                    #[trigger] kl[order@[j] as int][i]) as int].len() > 0 implies occurs_from(
                    order@,
                    kl[order@[j] as int][i],
                    j + 1,
                ) || queue@.contains(kl[order@[j] as int][i]) by {
                    let c = kl[order@[j] as int][i];
                    if occurs_from(order0, c, j + 1) {
                        let w = choose|w: int| 0 <= j + 1 <= w < order0.len() && order0[w] == c;
                        assert(order@[w] == c);
                    } else {
                        assert(queue0.contains(c));
                        let w = choose|w: int| 0 <= w < queue0.len() && queue0[w] == c;
                        if w == queue0.len() - 1 {
                            assert(order@[last] == c);
                        } else {
                            assert(queue@[w] == c);
                        }
                    }
                }
            }
            // nothing that is known so far is a child of the place just visited
            assert forall|x: usize|
                (order@.contains(x) || queue@.contains(x)) implies !kl[id as int].contains(x) by {
                if kl[id as int].contains(x) {
                    let m = choose|m: int| 0 <= m < kl[id as int].len() && kl[id as int][m] == x;
                    assert(up[kl[id as int][m] as int] == Some(id));
                    lemma_moved_back(order0, queue0, x);
                    if order0.contains(x) {
                        let j = choose|j: int| 0 <= j < order0.len() && order0[j] == x;
                        assert(occurs_before(order0, id, j));
                        let w = choose|w: int| 0 <= w < j && w < order0.len() && order0[w] == id;
                        assert(order0[w] != queue0[queue0.len() - 1]);
                    } else {
                        let k = choose|k: int| 0 <= k < queue0.len() && queue0[k] == x;
                        assert(order0.contains(id));
                        let w = choose|w: int| 0 <= w < order0.len() && order0[w] == id;
                        assert(order0[w] != queue0[queue0.len() - 1]);
                    }
                }
            }
        }
        let mut m: usize = 0;
        while m < kids[id].len()
            invariant
                kl == kid_lists(kids@),
                linked(roots@, kl, up),
                walking(roots@, kl, up, order@, queue@),
                order@.len() > 0,
                last == order@.len() - 1,
                id == order@[last],
                id < kids@.len(),
                m <= kl[id as int].len(),
                forall|j: int|
                    0 <= j < last ==> children_queued(
                        kl,
                        order@,
                        queue@,
                        j,
                        kl[order@[j] as int].len() as int,
                    ),
                children_queued(kl, order@, queue@, last, m as int),
                forall|x: usize|
                    (order@.contains(x) || queue@.contains(x)) && kl[id as int].contains(x)
                        ==> occurs_before(kl[id as int], x, m as int),
            decreases kl[id as int].len() - m,
        {
            let c = kids[id][m];
            let ghost queue1 = queue@;
            assert(c == kl[id as int][m as int]);
            assert(kl[id as int].contains(c));
            assert(up[kl[id as int][m as int] as int] == Some(id));
            if kids[c].len() > 0 {
                proof {
                    // `c` is new: what is known so far has come before it
                    // in the list of children, and no child is listed twice
                    if order@.contains(c) || queue@.contains(c) {
                        assert(occurs_before(kl[id as int], c, m as int));
                        let w = choose|w: int|
                            0 <= w < m && w < kl[id as int].len() && kl[id as int][w] == c;
                        assert(kl[id as int].no_duplicates());
                        assert(false);
                    }
                }
                queue.push_back(c);
                proof {
                    assert(queue@[queue@.len() - 1] == c);
                    assert(walking(roots@, kl, up, order@, queue@)) by {
                        assert forall|k: int|
                            0 <= k < roots@.len() && kl[(#[trigger] roots@[k]) as int].len()
                                > 0 implies order@.contains(roots@[k]) || queue@.contains(
                            roots@[k],
                        ) by {
                            lemma_pushed(queue1, c, roots@[k]);
                        }
                        assert forall|j: int, k: int|
                            0 <= j < order@.len() && 0 <= k < queue@.len() implies (
                        #[trigger] order@[j]) != (#[trigger] queue@[k]) by {
                            if k < queue1.len() {
                                assert(queue@[k] == queue1[k]);
                            }
                        }
                        assert(queue@.no_duplicates()) by {
                            assert forall|a: int, b: int|
                                0 <= a < queue@.len() && 0 <= b < queue@.len() && a
                                    != b implies queue@[a] != queue@[b] by {
                                if a < queue1.len() {
                                    assert(queue@[a] == queue1[a]);
                                }
                                if b < queue1.len() {
                                    assert(queue@[b] == queue1[b]);
                                }
                            }
                        }
                        assert forall|k: int|
                            0 <= k < queue@.len() && up[(
                            #[trigger] queue@[k]) as int] is Some implies order@.contains(
                            up[queue@[k] as int].unwrap(),
                        ) by {
                            if k < queue1.len() {
                                assert(queue@[k] == queue1[k]);
                            }
                        }
                        assert forall|k: int| 0 <= k < queue@.len() implies (#[trigger] queue@[k])
                            < kl.len() && kl[queue@[k] as int].len() > 0 by {
                            if k < queue1.len() {
                                assert(queue@[k] == queue1[k]);
                            }
                        }
                    }
                }
            }
            proof {
                assert forall|j: int| 0 <= j < last implies children_queued(
                    kl,
                    order@,
                    queue@,
                    j,
                    kl[order@[j] as int].len() as int,
                ) by {
                    assert(children_queued(
                        kl,
                        order@,
                        queue1,
                        j,
                        kl[order@[j] as int].len() as int,
                    ));
                    assert forall|i: int|
                        0 <= i < kl[order@[j] as int].len() && kl[(
                        #[trigger] kl[order@[j] as int][i]) as int].len() > 0 implies occurs_from(
                        order@,
                        kl[order@[j] as int][i],
                        j + 1,
                    ) || queue@.contains(kl[order@[j] as int][i]) by {
                        lemma_pushed(queue1, c, kl[order@[j] as int][i]);
                    }
                }
                assert(children_queued(kl, order@, queue@, last, m + 1)) by {
                    assert forall|i: int|
                        0 <= i < m + 1 && i < kl[order@[last] as int].len() && kl[(
                        #[trigger] kl[order@[last] as int][i]) as int].len()
                            > 0 implies occurs_from(order@, kl[order@[last] as int][i], last + 1)
                        || queue@.contains(kl[order@[last] as int][i]) by {
                        if i < m {
                            lemma_pushed(queue1, c, kl[order@[last] as int][i]);
                        } else {
                            assert(queue@[queue@.len() - 1] == c);
                        }
                    }
                }
                assert forall|x: usize|
                    (order@.contains(x) || queue@.contains(x)) && kl[id as int].contains(
                        x,
                    ) implies occurs_before(kl[id as int], x, m + 1) by {
                    if order@.contains(x) || queue1.contains(x) {
                        assert(occurs_before(kl[id as int], x, m as int));
                        let w = choose|w: int|
                            0 <= w < m && w < kl[id as int].len() && kl[id as int][w] == x;
                        assert(kl[id as int][w] == x);
                    } else {
                        lemma_pushed(queue1, c, x);
                        assert(x == c);
                        assert(kl[id as int][m as int] == x);
                    }
                }
            }
            m = m + 1;
        }
    }
    proof {
        assert forall|j: int, m: int|
            0 <= j < order@.len() && 0 <= m < kl[order@[j] as int].len() && kl[(
            #[trigger] kl[order@[j] as int][m]) as int].len() > 0 implies occurs_from(
            order@,
            kl[order@[j] as int][m],
            j + 1,
        ) by {
            assert(children_queued(kl, order@, queue@, j, kl[order@[j] as int].len() as int));
        }
    }
    order
}

} // verus!
