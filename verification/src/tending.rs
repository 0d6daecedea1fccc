//! What rebalancing does to the nodes of a bucket, in whatever order it comes to them.
use vstd::prelude::*;
use crate::inode::{page_len, views};
use crate::node::{flagged_in, fresh_node, Base, Node};

verus! {

/// A node is too small to be left alone: its page would take no more than `merge_at` bytes, or its
/// elements are too few.
pub open spec fn small(n: Node, merge_at: int) -> bool {
    page_len(views(n.inodes@)) <= merge_at || n.inodes@.len() <= (if n.is_leaf { 1int } else { 2int })
}

/// The node without its mark.
pub open spec fn calm(n: Node) -> Node {
    Node { unbalanced: false, ..n }
}

/// Node `c` is that of child `i` of branch `n`: the one in memory, or else the one that is read from
/// its page.
pub open spec fn child_node(n: Node, base: Base, i: int, c: Node) -> bool {
    match n.children@[i] {
        Some(x) => c == *x,
        None => fresh_node(base, n.inodes@[i].pgid, c),
    }
}

/// Child `r` of branch `n0` has gone into the one before it. These are the nodes `right` and `left`,
/// and `m` is what has become of `left`.
pub open spec fn joined_into(n0: Node, n1: Node, base: Base, r: int, left: Node, right: Node, m: Node) -> bool {
    &&& child_node(n0, base, r - 1, left)
    &&& child_node(n0, base, r, right)
    &&& m == (Node { inodes: m.inodes, children: m.children, ..left })
    &&& m.inodes@ == left.inodes@ + right.inodes@
    &&& m.children@ == left.children@ + right.children@
    &&& n1 == (Node { inodes: n1.inodes, children: n1.children, ..n0 })
    &&& n1.inodes@ == n0.inodes@.remove(r)
    &&& n1.children@ == n0.children@.update(r - 1, Some(Box::new(m))).remove(r)
}

/// Child `r` of a branch has gone into the one before it.
pub open spec fn joins(n0: Node, n1: Node, base: Base, r: int) -> bool {
    exists|left: Node, right: Node, m: Node| #[trigger] joined_into(n0, n1, base, r, left, right, m)
}

/// Only child `i` of a branch is another one.
pub open spec fn child_set(n0: Node, n1: Node, i: int, c: Node) -> bool {
    &&& n1 == (Node { children: n1.children, ..n0 })
    &&& n1.children@ == n0.children@.update(i, Some(Box::new(c)))
}

/// Child `i` of branch `n0`, which was marked, has been looked after. If it is large enough only its
/// mark is gone; if it is empty it is dropped; if it is small the first child takes up the second
/// one, and any other goes into the one before it. Where there is a child less the branch is marked.
pub open spec fn settles(n0: Node, n1: Node, base: Base, merge_at: int, i: int) -> bool {
    let c = *n0.children@[i]->0;
    &&& n0.children@[i] is Some
    &&& c.unbalanced
    &&& if !small(c, merge_at) {
        child_set(n0, n1, i, calm(c))
    } else if c.inodes@.len() == 0 {
        &&& n1 == (Node { inodes: n1.inodes, children: n1.children, unbalanced: true, ..n0 })
        &&& n1.inodes@ == n0.inodes@.remove(i)
        &&& n1.children@ == n0.children@.remove(i)
    } else {
        exists|x: Node| #[trigger]
            child_set(Node { unbalanced: true, ..n0 }, x, i, calm(c)) && joins(x, n1, base, if i == 0 { 1 } else { i })
    }
}

/// A marked node below branch `n0` has been looked after, and with it each branch on the way down
/// to it that is marked by then.
pub open spec fn tends(n0: Node, n2: Node, base: Base, merge_at: int) -> bool
    decreases n0,
{
    exists|i: int, n1: Node| #[trigger]
        tends_at(n0, n1, n2, base, merge_at, i) && 0 <= i < n0.children@.len() && match n0.children@[i] {
            Some(c0) => *n1.children@[i]->0 == *c0 && c0.unbalanced || tends(*c0, *n1.children@[i]->0, base, merge_at),
            None => false,
        }
}

/// Child `i` of branch `n0`, below which something was looked after, is looked after if it is marked.
pub open spec fn tends_at(n0: Node, n1: Node, n2: Node, base: Base, merge_at: int, i: int) -> bool {
    &&& n1.children@[i] is Some
    &&& child_set(n0, n1, i, *n1.children@[i]->0)
    &&& if n1.children@[i]->0.unbalanced {
        settles(n1, n2, base, merge_at, i)
    } else {
        n2 == n1
    }
}

/// A root that has only one child has become that child.
pub open spec fn collapses(n0: Node, n1: Node, base: Base) -> bool {
    exists|c: Node| #[trigger]
        child_node(n0, base, 0, c) && n1 == (Node { is_leaf: c.is_leaf, inodes: c.inodes, children: c.children, ..n0 })
}

/// One marked node below root `n0`, if there is one, has been looked after, and then the root, which
/// may be of any size: if it is marked and has only one child it becomes that child.
pub open spec fn tends_root(n0: Node, n2: Node, base: Base, merge_at: int) -> bool {
    if n0.is_leaf {
        n2 == calm(n0)
    } else {
        exists|n1: Node| #[trigger] tends_root_by(n0, n1, n2, base, merge_at)
    }
}

pub open spec fn tends_root_by(n0: Node, n1: Node, n2: Node, base: Base, merge_at: int) -> bool {
    &&& if flagged_in(n0.children@) == 0 {
        n1 == n0
    } else {
        tends(n0, n1, base, merge_at)
    }
    &&& if n1.unbalanced && n1.inodes@.len() == 1 {
        collapses(calm(n1), n2, base)
    } else {
        n2 == calm(n1)
    }
}

/// The forms that a root takes while what is marked is looked after, one after the other.
pub open spec fn tending(path: Seq<Node>, base: Base, merge_at: int) -> bool {
    &&& path.len() >= 1
    &&& forall|k: int| 0 < k < path.len() ==> tends_root(path[k - 1], #[trigger] path[k], base, merge_at)
}

/// Root `n0` has become `n1` by looking after one marked node after the other, until there was none.
pub open spec fn rebalances(n0: Node, n1: Node, base: Base, merge_at: int) -> bool {
    &&& n1.flagged() == 0
    &&& n0.flagged() == 0 ==> n1 == n0
    &&& exists|path: Seq<Node>| #[trigger] tending(path, base, merge_at) && path[0] == n0 && path.last() == n1
}

/// A marked child that takes more than `merge_at` bytes and has two elements, three in a branch, stays,
/// without its mark. For any other one there is a child less, and the branch is marked.
pub proof fn lemma_settled(n0: Node, n1: Node, base: Base, merge_at: int, i: int)
    requires
        settles(n0, n1, base, merge_at, i),
        0 <= i < n0.inodes@.len(),
        n0.children@.len() == n0.inodes@.len(),
        n0.inodes@.len() > 1,
    ensures
        ({
            let c = *n0.children@[i]->0;
            let enough = page_len(views(c.inodes@)) > merge_at && c.inodes@.len() >= (if c.is_leaf { 2int } else { 3int });
            if enough {
                &&& n1.inodes@ == n0.inodes@
                &&& n1.unbalanced == n0.unbalanced
                &&& n1.children@[i] == Some(Box::new(Node { unbalanced: false, ..c }))
                &&& forall|j: int| 0 <= j < n0.children@.len() && j != i ==> #[trigger] n1.children@[j] == n0.children@[j]
            } else {
                &&& n1.inodes@.len() == n0.inodes@.len() - 1
                &&& n1.children@.len() == n0.children@.len() - 1
                &&& n1.unbalanced
            }
        }),
{
}

/// Two children that are put together hold the elements of both, in their order, and the branch above
/// them has the key of the first one for both.
pub proof fn lemma_joined_all(n0: Node, n1: Node, base: Base, r: int, left: Node, right: Node, m: Node, k: int)
    requires
        joined_into(n0, n1, base, r, left, right, m),
        0 < r < n0.inodes@.len(),
        n0.children@.len() == n0.inodes@.len(),
    ensures
        m.inodes@.len() == left.inodes@.len() + right.inodes@.len(),
        0 <= k < left.inodes@.len() ==> m.inodes@[k] == left.inodes@[k],
        0 <= k < right.inodes@.len() ==> m.inodes@[left.inodes@.len() + k] == right.inodes@[k],
        n1.inodes@[r - 1] == n0.inodes@[r - 1],
        n1.children@[r - 1] == Some(Box::new(m)),
        0 <= k < r - 1 ==> n1.inodes@[k] == n0.inodes@[k] && n1.children@[k] == n0.children@[k],
        r < k < n0.inodes@.len() ==> n1.inodes@[k - 1] == n0.inodes@[k] && n1.children@[k - 1] == n0.children@[k],
{
}

/// A small child that has elements is put together with the one before it, the first one with the one
/// behind it: the elements of the former stand before those of the latter, under the former's key.
pub proof fn lemma_settled_into(n0: Node, n1: Node, base: Base, merge_at: int, i: int)
    requires
        settles(n0, n1, base, merge_at, i),
        0 <= i < n0.inodes@.len(),
        n0.children@.len() == n0.inodes@.len(),
        n0.inodes@.len() > 1,
        n0.children@[i]->0.inodes@.len() > 0,
        page_len(views(n0.children@[i]->0.inodes@)) <= merge_at,
    ensures
        ({
            let c = *n0.children@[i]->0;
            let k = c.inodes@.len() as int;
            if i == 0 {
                &&& n1.inodes@ == n0.inodes@.remove(1)
                &&& n1.children@[0] is Some
                &&& n1.children@[0]->0.inodes@.take(k) == c.inodes@
                &&& n0.children@[1] matches Some(next) ==> n1.children@[0]->0.inodes@.skip(k) == next.inodes@
            } else {
                let m = n1.children@[i - 1]->0.inodes@;
                &&& n1.inodes@ == n0.inodes@.remove(i)
                &&& n1.children@[i - 1] is Some
                &&& m.len() >= k
                &&& m.skip(m.len() - k) == c.inodes@
                &&& n0.children@[i - 1] matches Some(prev) ==> m.take(m.len() - k) == prev.inodes@
            }
        }),
{
    let c = *n0.children@[i]->0;
    let k = c.inodes@.len() as int;
    let r: int = if i == 0 { 1 } else { i };
    let x = choose|x: Node| #[trigger] child_set(Node { unbalanced: true, ..n0 }, x, i, calm(c)) && joins(x, n1, base, r);
    let (left, right, m) = choose|left: Node, right: Node, m: Node| #[trigger] joined_into(x, n1, base, r, left, right, m);
    assert(x.children@[i] == Some(Box::new(calm(c))));
    if i == 0 {
        assert(m.inodes@.take(k) =~= c.inodes@);
        assert(m.inodes@.skip(k) =~= right.inodes@);
        assert(x.children@[1] == n0.children@[1]);
    } else {
        assert(m.inodes@.skip(m.inodes@.len() - k) =~= c.inodes@);
        assert(m.inodes@.take(m.inodes@.len() - k) =~= left.inodes@);
        assert(x.children@[i - 1] == n0.children@[i - 1]);
    }
}

/// A root may be of any size: where nothing below it is marked it only loses its mark, unless it is a
/// marked branch with one element. That one becomes the child that it leads to, in its own place.
pub proof fn lemma_root_tended(n0: Node, n2: Node, base: Base, merge_at: int)
    requires
        tends_root(n0, n2, base, merge_at),
        n0.is_leaf || flagged_in(n0.children@) == 0,
    ensures
        !n2.unbalanced,
        n2.pgid == n0.pgid,
        n0.is_leaf || !n0.unbalanced || n0.inodes@.len() != 1 ==> n2.inodes == n0.inodes && n2.children == n0.children
            && n2.is_leaf == n0.is_leaf,
        !n0.is_leaf && n0.unbalanced && n0.inodes@.len() == 1 ==> match n0.children@[0] {
            Some(c) => n2.inodes == c.inodes && n2.children == c.children && n2.is_leaf == c.is_leaf,
            None => exists|c: Node| #[trigger]
                fresh_node(base, n0.inodes@[0].pgid, c) && n2.inodes == c.inodes && n2.children == c.children && n2.is_leaf
                    == c.is_leaf,
        },
{
    if !n0.is_leaf {
        let n1 = choose|n1: Node| #[trigger] tends_root_by(n0, n1, n2, base, merge_at);
        assert(n1 == n0);
        if n0.unbalanced && n0.inodes@.len() == 1 {
            assert(collapses(calm(n0), n2, base));
            let c = choose|c: Node| #[trigger]
                child_node(calm(n0), base, 0, c) && n2 == (Node {
                    is_leaf: c.is_leaf,
                    inodes: c.inodes,
                    children: c.children,
                    ..calm(n0)
                });
            if n0.children@[0] is None {
                assert(fresh_node(base, n0.inodes@[0].pgid, c));
            }
        }
    }
}

} // verus!
