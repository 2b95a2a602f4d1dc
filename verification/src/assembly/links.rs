//! From declarations to links: which declarations are roots, and which are
//! the children of which.

use vstd::prelude::*;
use vstd::hash_map::StringHashMap;
use crate::menuitem;
use crate::menuitem::{Declaration, MenuItem, Node};

verus! {

/// What the declarations in the list say.
pub(crate) open spec fn views<C: Clone + Default>(items: Seq<menuitem::Builder<C>>) -> Seq<
    Declaration<C>,
> {
    Seq::new(items.len(), |i: int| items[i]@)
}

/// The index knows every declaration in the list by its identifier, and
/// nothing else: an identifier leads to the one place where it is declared.
pub(crate) open spec fn indexed<C>(ds: Seq<Declaration<C>>, index: Map<Seq<char>, usize>) -> bool {
    &&& forall|i: int|
        0 <= i < ds.len() ==> index.contains_key((#[trigger] ds[i]).id) && index[ds[i].id] == i
    &&& forall|id: Seq<char>|
        index.contains_key(id) ==> (#[trigger] index[id]) < ds.len() && ds[index[id] as int].id
            == id
}

/// The declarations in the list are those of the map, each under its
/// identifier, and no two in the list share one.
pub(crate) open spec fn catalog<C>(
    ds: Seq<Declaration<C>>,
    decls: Map<Seq<char>, Declaration<C>>,
) -> bool {
    &&& ds.len() <= usize::MAX
    &&& forall|i: int|
        0 <= i < ds.len() ==> decls.contains_key((#[trigger] ds[i]).id) && decls[ds[i].id] == ds[i]
    &&& forall|id: Seq<char>| #[trigger]
        decls.contains_key(id) ==> exists|i: int| 0 <= i < ds.len() && (#[trigger] ds[i]).id == id
    &&& forall|i: int, j: int|
        0 <= i < j < ds.len() ==> (#[trigger] ds[i]).id != (#[trigger] ds[j]).id
}

/// The declaration at `c` names the one at `p` as its parent.
pub(crate) open spec fn child_of<C>(ds: Seq<Declaration<C>>, c: int, p: int) -> bool {
    ds[c].parent == Some(ds[p].id)
}

/// For each place, the place of the declared parent, if there is one.
pub(crate) open spec fn up_of<C>(ds: Seq<Declaration<C>>) -> Seq<Option<usize>> {
    Seq::new(
        ds.len(),
        |c: int|
            if exists|p: int| 0 <= p < ds.len() && child_of(ds, c, p) {
                Some((choose|p: int| 0 <= p < ds.len() && child_of(ds, c, p)) as usize)
            } else {
                None
            },
    )
}

/// The entries of `s` grow.
pub(crate) open spec fn ascending(s: Seq<usize>) -> bool {
    forall|a: int, b: int| 0 <= a < b < s.len() ==> (#[trigger] s[a]) < (#[trigger] s[b])
}

/// The lists of children, as sequences.
pub(crate) open spec fn kid_lists(kids: Seq<Vec<usize>>) -> Seq<Seq<usize>> {
    Seq::new(kids.len(), |p: int| kids[p]@)
}

/// Of the declarations before place `done`, `roots` lists those without a
/// parent and `kids[p]` those that name `p` as their parent.
pub(crate) open spec fn sorted_out<C>(
    ds: Seq<Declaration<C>>,
    roots: Seq<usize>,
    kids: Seq<Seq<usize>>,
    done: int,
) -> bool {
    &&& kids.len() == ds.len()
    &&& ascending(roots)
    &&& forall|k: int| 0 <= k < roots.len() ==> (#[trigger] roots[k]) < done
    &&& forall|c: usize|
        #![trigger ds[c as int]]
        #![trigger roots.contains(c)]
        c < done ==> (ds[c as int].parent is None <==> roots.contains(c))
    &&& forall|p: int| 0 <= p < kids.len() ==> ascending(#[trigger] kids[p])
    &&& forall|p: int, m: int|
        0 <= p < kids.len() && 0 <= m < kids[p].len() ==> (#[trigger] kids[p][m]) < done
    &&& forall|c: usize, p: int|
        #![trigger child_of(ds, c as int, p)]
        #![trigger kids[p].contains(c)]
        c < done && 0 <= p < kids.len() ==> (child_of(ds, c as int, p) <==> kids[p].contains(c))
}

/// `x` stands in `s` at a place before `j`.
pub(crate) open spec fn occurs_before(s: Seq<usize>, x: usize, j: int) -> bool {
    exists|i: int| 0 <= i < j && i < s.len() && #[trigger] s[i] == x
}

/// `x` stands in `s` at a place from `j` on.
pub(crate) open spec fn occurs_from(s: Seq<usize>, x: usize, j: int) -> bool {
    exists|i: int| 0 <= j <= i < s.len() && #[trigger] s[i] == x
}

/// What a list holds after a push: what it held, and the new entry.
pub(crate) proof fn lemma_pushed(queue: Seq<usize>, c: usize, x: usize)
    ensures
        queue.push(c).contains(x) <==> queue.contains(x) || x == c,
{
    let pushed = queue.push(c);
    if queue.contains(x) {
        let w = choose|w: int| 0 <= w < queue.len() && queue[w] == x;
        assert(pushed[w] == x);
    }
    if x == c {
        assert(pushed[queue.len() as int] == x);
    }
    if pushed.contains(x) {
        let w = choose|w: int| 0 <= w < pushed.len() && pushed[w] == x;
        if w < queue.len() {
            assert(queue[w] == x);
        }
    }
}

/// The three descriptions of the links agree. `up` gives each place the
/// place of its parent, if it has one that is declared; `kids` gives each
/// place the list of those whose parent it is; `roots` lists places
/// without a parent. No list names a place twice.
pub(crate) open spec fn linked(
    roots: Seq<usize>,
    kids: Seq<Seq<usize>>,
    up: Seq<Option<usize>>,
) -> bool {
    &&& kids.len() == up.len()
    &&& roots.no_duplicates()
    &&& forall|k: int|
        0 <= k < roots.len() ==> (#[trigger] roots[k]) < up.len() && up[roots[k] as int] is None
    &&& forall|p: int| 0 <= p < kids.len() ==> (#[trigger] kids[p]).no_duplicates()
    &&& forall|p: int, m: int|
        0 <= p < kids.len() && 0 <= m < kids[p].len() ==> (#[trigger] kids[p][m]) < up.len()
            && up[kids[p][m] as int] == Some(p as usize)
    &&& forall|c: int|
        0 <= c < up.len() && (#[trigger] up[c]) is Some ==> up[c].unwrap() < kids.len()
            && kids[up[c].unwrap() as int].contains(c as usize)
}

/// The links that `sort_out` finds are those that `parent_order` asks for.
pub(crate) proof fn lemma_links<C>(
    ds: Seq<Declaration<C>>,
    decls: Map<Seq<char>, Declaration<C>>,
    roots: Seq<usize>,
    kids: Seq<Seq<usize>>,
)
    requires
        catalog(ds, decls),
        sorted_out(ds, roots, kids, ds.len() as int),
    ensures
        linked(roots, kids, up_of(ds)),
        forall|c: int, p: int|
            0 <= c < ds.len() && 0 <= p < ds.len() ==> (#[trigger] child_of(ds, c, p) <==> up_of(
                ds,
            )[c] == Some(p as usize)),
{
    let up = up_of(ds);
    assert forall|c: int, p: int| 0 <= c < ds.len() && 0 <= p < ds.len() implies (
    #[trigger] child_of(ds, c, p) <==> up[c] == Some(p as usize)) by {
        if child_of(ds, c, p) {
            let q = choose|q: int| 0 <= q < ds.len() && child_of(ds, c, q);
            if q < p {
                assert(ds[q].id != ds[p].id);
            }
            if p < q {
                assert(ds[p].id != ds[q].id);
            }
        }
    }
    assert forall|k: int| 0 <= k < roots.len() implies (#[trigger] roots[k]) < up.len()
        && up[roots[k] as int] is None by {
        assert(roots.contains(roots[k]));
        assert(ds[roots[k] as int].parent is None);
    }
    assert(roots.no_duplicates());
    assert forall|p: int| 0 <= p < kids.len() implies (#[trigger] kids[p]).no_duplicates() by {
        assert(ascending(kids[p]));
    }
    assert forall|p: int, m: int| 0 <= p < kids.len() && 0 <= m < kids[p].len() implies (
    #[trigger] kids[p][m]) < up.len() && up[kids[p][m] as int] == Some(p as usize) by {
        assert(kids[p].contains(kids[p][m]));
        assert(child_of(ds, kids[p][m] as int, p));
    }
    assert forall|c: int| 0 <= c < up.len() && (#[trigger] up[c]) is Some implies up[c].unwrap()
        < kids.len() && kids[up[c].unwrap() as int].contains(c as usize) by {
        let q = choose|q: int| 0 <= q < ds.len() && child_of(ds, c, q);
        assert(child_of(ds, c as usize as int, q));
    }
}

/// Sorts the declarations out by their parents: the places of those that
/// name no parent, and for each place the places of those that name it. A
/// declaration whose parent is not declared comes into neither.
pub(crate) fn sort_out<C: Clone + Default>(
    items: &Vec<menuitem::Builder<C>>,
    index: &StringHashMap<usize>,
) -> (r: (Vec<usize>, Vec<Vec<usize>>))
    requires
        indexed(views(items@), index@),
    ensures
        sorted_out(views(items@), r.0@, kid_lists(r.1@), items@.len() as int),
{
    let ghost ds = views(items@);
    let n = items.len();
    let mut kids: Vec<Vec<usize>> = Vec::new();
    let mut p: usize = 0;
    while p < n
        invariant
            p <= n,
            kids@.len() == p,
            forall|q: int| 0 <= q < p ==> (#[trigger] kids@[q])@.len() == 0,
        decreases n - p,
    {
        kids.push(Vec::new());
        p = p + 1;
    }
    let mut roots: Vec<usize> = Vec::new();
    let mut i: usize = 0;
    while i < n
        invariant
            i <= n,
            n == items@.len(),
            ds == views(items@),
            indexed(ds, index@),
            sorted_out(ds, roots@, kid_lists(kids@), i as int),
        decreases n - i,
    {
        let ghost roots0 = roots@;
        let ghost kl0 = kid_lists(kids@);
        match items[i].parent_id() {
            None => {
                roots.push(i);
                proof {
                    assert forall|c: usize|
                        #![trigger ds[c as int]]
                        #![trigger roots@.contains(c)]
                        c < i + 1 implies (ds[c as int].parent is None <==> roots@.contains(c)) by {
                        lemma_pushed(roots0, i, c);
                        if roots0.contains(c) {
                            let w = choose|w: int| 0 <= w < roots0.len() && roots0[w] == c;
                            assert(roots0[w] < i);
                        }
                    }
                    assert forall|c: usize, p: int|
                        #![trigger child_of(ds, c as int, p)]
                        #![trigger kl0[p].contains(c)]
                        c < i + 1 && 0 <= p < kl0.len() implies (child_of(ds, c as int, p)
                        <==> kl0[p].contains(c)) by {
                        if kl0[p].contains(c) {
                            let w = choose|w: int| 0 <= w < kl0[p].len() && kl0[p][w] == c;
                            assert(kl0[p][w] < i);
                        }
                    }
                }
            },
            Some(pid) => {
                let found: Option<usize> = match index.get(pid) {
                    Some(at) => Some(*at),
                    None => None,
                };
                match found {
                    Some(at) => {
                        kids[at].push(i);
                        proof {
                            let kl = kid_lists(kids@);
                            assert(kl[at as int] == kl0[at as int].push(i));
                            assert forall|p: int| 0 <= p < kl.len() && p != at implies kl[p]
                                == kl0[p] by {}
                            assert forall|p: int| 0 <= p < kl.len() implies ascending(
                                #[trigger] kl[p],
                            ) by {
                                assert(ascending(kl0[p]));
                                if p == at {
                                    assert forall|a: int, b: int|
                                        0 <= a < b < kl[p].len() implies (#[trigger] kl[p][a]) < (
                                    #[trigger] kl[p][b]) by {
                                        assert(kl[p][a] == kl0[p][a]);
                                        if b < kl0[p].len() {
                                            assert(kl[p][b] == kl0[p][b]);
                                        }
                                    }
                                }
                            }
                            assert forall|p: int, m: int|
                                0 <= p < kl.len() && 0 <= m < kl[p].len() implies (
                            #[trigger] kl[p][m]) < i + 1 by {
                                if p != at || m < kl0[p].len() {
                                    assert(kl[p][m] == kl0[p][m]);
                                }
                            }
                            assert forall|c: usize, p: int|
                                #![trigger child_of(ds, c as int, p)]
                                #![trigger kl[p].contains(c)]
                                c < i + 1 && 0 <= p < kl.len() implies (child_of(ds, c as int, p)
                                <==> kl[p].contains(c)) by {
                                if p == at {
                                    lemma_pushed(kl0[p], i, c);
                                }
                                if kl0[p].contains(c) {
                                    let w = choose|w: int| 0 <= w < kl0[p].len() && kl0[p][w] == c;
                                    assert(kl0[p][w] < i);
                                }
                                if c == i && child_of(ds, c as int, p) {
                                    assert(index@[ds[p].id] == p);
                                }
                            }
                            assert forall|c: usize|
                                #![trigger ds[c as int]]
                                #![trigger roots@.contains(c)]
                                c < i + 1 implies (ds[c as int].parent is None <==> roots@.contains(
                                c,
                            )) by {
                                if roots0.contains(c) {
                                    let w = choose|w: int| 0 <= w < roots0.len() && roots0[w] == c;
                                    assert(roots0[w] < i);
                                }
                            }
                        }
                    },
                    None => {
                        proof {
                            assert forall|c: usize, p: int|
                                #![trigger child_of(ds, c as int, p)]
                                #![trigger kl0[p].contains(c)]
                                c < i + 1 && 0 <= p < kl0.len() implies (child_of(ds, c as int, p)
                                <==> kl0[p].contains(c)) by {
                                if kl0[p].contains(c) {
                                    let w = choose|w: int| 0 <= w < kl0[p].len() && kl0[p][w] == c;
                                    assert(kl0[p][w] < i);
                                }
                                if c == i && child_of(ds, c as int, p) {
                                    assert(index@.contains_key(ds[p].id));
                                }
                            }
                            assert forall|c: usize|
                                #![trigger ds[c as int]]
                                #![trigger roots@.contains(c)]
                                c < i + 1 implies (ds[c as int].parent is None <==> roots@.contains(
                                c,
                            )) by {
                                if roots0.contains(c) {
                                    let w = choose|w: int| 0 <= w < roots0.len() && roots0[w] == c;
                                    assert(roots0[w] < i);
                                }
                            }
                        }
                    },
                }
            },
        }
        i = i + 1;
    }
    (roots, kids)
}

/// `item` is the declaration `d` turned into an item, without children.
pub(crate) open spec fn bare<C: Clone + Default>(d: Declaration<C>, item: MenuItem<C>) -> bool {
    item@ == (Node {
        id: d.id,
        title: d.title,
        weight: d.weight,
        payload: d.payload,
        children: Seq::empty(),
    })
}

/// Turns every declaration into an item without children, in its place.
pub(crate) fn materialize<C: Clone + Default>(items: Vec<menuitem::Builder<C>>) -> (nodes: Vec<
    Option<MenuItem<C>>,
>)
    ensures
        nodes@.len() == items@.len(),
        forall|i: int|
            0 <= i < nodes@.len() ==> (#[trigger] nodes@[i]) is Some && bare(
                views(items@)[i],
                nodes@[i].unwrap(),
            ),
{
    let ghost ds = views(items@);
    let mut nodes: Vec<Option<MenuItem<C>>> = Vec::new();
    for decl in it: items
        invariant
            it.seq() == items@,
            ds == views(items@),
            nodes@.len() == it.index(),
            forall|i: int|
                0 <= i < nodes@.len() ==> (#[trigger] nodes@[i]) is Some && bare(
                    ds[i],
                    nodes@[i].unwrap(),
                ),
    {
        nodes.push(Some(decl.build()));
    }
    nodes
}

} // verus!
