//! Paths: where in the tree of a bucket a cursor is.
use vstd::prelude::*;
use crate::inode::{branch_pgid, decode, elem_ok, views};
use crate::node::{Base, Node, Pages};
use crate::page::{PageHeader, Pgid};
use crate::tree::{alike, cat_leaves, lemma_cat_split, Tree};

verus! {

/// One step of a path: a page and an element on it.
#[derive(Clone, Copy, Debug, PartialEq, Eq, Structural)]
pub struct ElemRef {
    pub pgid: Pgid,
    pub index: usize,
    /// Whether a leaf was in memory when the cursor came to it.
    pub in_memory: bool,
}

/// The steps from `k` on lead from the page of `t` down to a leaf.
pub open spec fn on_path(t: Tree, s: Seq<ElemRef>, k: int) -> bool
    decreases t,
{
    &&& 0 <= k < s.len()
    &&& s[k].pgid == t.pgid()
    &&& match t {
        Tree::Leaf { .. } => k == s.len() - 1,
        Tree::Branch { kids, .. } => {
            &&& k < s.len() - 1
            &&& 0 <= s[k].index < kids.len()
            &&& on_path(kids[s[k].index as int], s, k + 1)
        },
    }
}

/// The place among all leaves of the one that a path leads to.
pub open spec fn ordinal(t: Tree, s: Seq<ElemRef>, k: int) -> int
    decreases t,
{
    match t {
        Tree::Leaf { .. } => 0,
        Tree::Branch { kids, .. } => if 0 <= s[k].index < kids.len() {
            cat_leaves(kids.take(s[k].index as int)).len() + ordinal(kids[s[k].index as int], s, k + 1)
        } else {
            0
        },
    }
}

/// The leaf that a path leads to.
pub proof fn lemma_ordinal(t: Tree, s: Seq<ElemRef>, k: int)
    requires
        on_path(t, s, k),
    ensures
        0 <= ordinal(t, s, k) < t.leaves().len(),
        t.leaves()[ordinal(t, s, k)] is Leaf,
        t.leaves()[ordinal(t, s, k)].pgid() == s.last().pgid,
    decreases t,
{
    match t {
        Tree::Leaf { .. } => {},
        Tree::Branch { kids, .. } => {
            let i = s[k].index as int;
            lemma_ordinal(kids[i], s, k + 1);
            lemma_cat_split(kids, i);
        },
    }
}

/// A path in one tree is one in a tree with the same branches.
pub proof fn lemma_path_alike(t: Tree, u: Tree, s: Seq<ElemRef>, k: int)
    requires
        alike(t, u),
    ensures
        on_path(t, s, k) == on_path(u, s, k),
        on_path(t, s, k) ==> ordinal(t, s, k) == ordinal(u, s, k),
    decreases t,
{
    match (t, u) {
        (Tree::Leaf { .. }, Tree::Leaf { .. }) => {},
        (Tree::Branch { kids: x, .. }, Tree::Branch { kids: y, .. }) => {
            if 0 <= k < s.len() && 0 <= s[k].index < x.len() {
                let i = s[k].index as int;
                assert(alike(x[i], y[i]));
                lemma_path_alike(x[i], y[i], s, k + 1);
                lemma_leaves_alike(x.take(i), y.take(i));
            }
        },
        _ => {},
    }
}

proof fn lemma_leaves_alike(x: Seq<Tree>, y: Seq<Tree>)
    requires
        x.len() == y.len(),
        forall|i: int| #![trigger x[i]] #![trigger y[i]] 0 <= i < x.len() ==> alike(x[i], y[i]),
    ensures
        cat_leaves(x).len() == cat_leaves(y).len(),
    decreases x.len(),
{
    if x.len() > 0 {
        let n = x.len() - 1;
        assert(alike(x[n], y[n]));
        assert forall|i: int| #![trigger x.drop_last()[i]] #![trigger y.drop_last()[i]] 0 <= i < n implies alike(
            x.drop_last()[i],
            y.drop_last()[i],
        ) by {
            assert(alike(x[i], y[i]));
        }
        lemma_leaves_alike(x.drop_last(), y.drop_last());
        crate::tree::lemma_alike_uses(x[n], y[n]);
    }
}

/// Only the steps from `k` on matter.
pub proof fn lemma_path_same(t: Tree, a: Seq<ElemRef>, b: Seq<ElemRef>, k: int)
    requires
        a.len() == b.len(),
        forall|i: int| k <= i < a.len() ==> (#[trigger] a[i]).pgid == b[i].pgid,
        forall|i: int| k <= i < a.len() - 1 ==> (#[trigger] a[i]).index == b[i].index,
    ensures
        on_path(t, a, k) == on_path(t, b, k),
        on_path(t, a, k) ==> ordinal(t, a, k) == ordinal(t, b, k),
    decreases t,
{
    match t {
        Tree::Leaf { .. } => {},
        Tree::Branch { kids, .. } => {
            if 0 <= k < a.len() - 1 && 0 <= a[k].index < kids.len() {
                assert(a[k].index == b[k].index);
                lemma_path_same(kids[a[k].index as int], a, b, k + 1);
            }
        },
    }
}

// ---------------------------------------------------------------------------------------------
// Moving along pages.

/// What a page below the root of a bucket is.
pub open spec fn on_disk(pages: Pages, base: Base, pgid: Pgid) -> bool {
    &&& base.ok()
    &&& pages.backs(base)
    &&& base.old.contains(pgid)
}

/// The child at `i` of a branch page is on disk too.
proof fn lemma_kid(pages: Pages, base: Base, pgid: Pgid, i: int)
    requires
        on_disk(pages, base, pgid),
        base.forest[pgid] is Branch,
        0 <= i < base.forest[pgid]->kids.len(),
    ensures
        base.page_ok(pgid),
        decode(base.store[pgid]).len() == base.forest[pgid]->kids.len(),
        base.forest[pgid]->kids[i] == base.forest[decode(base.store[pgid])[i].pgid],
        base.forest[pgid]->kids[i].pgid() == decode(base.store[pgid])[i].pgid,
        base.old.contains(decode(base.store[pgid])[i].pgid),
        elem_ok(base.store[pgid], i),
{
    assert(base.page_ok(pgid));
    let kid = base.forest[pgid]->kids[i];
    let p = decode(base.store[pgid])[i].pgid;
    assert(kid == base.forest[p]);
    assert(base.page_ok(p));
    assert(base.kids_old(pgid));
    assert(base.old.contains(kid.pgid()));
}

/// A branch with children, all the way down.
pub open spec fn full(t: Tree) -> bool
    decreases t,
{
    match t {
        Tree::Leaf { .. } => true,
        Tree::Branch { kids, .. } => kids.len() > 0 && forall|i: int| 0 <= i < kids.len() ==> full(#[trigger] kids[i]),
    }
}

/// A well-formed tree has no empty branches.
pub proof fn lemma_full(t: Tree, lo: Option<crate::tree::Key>, hi: Option<crate::tree::Key>, tight: bool, least: int)
    requires
        t.wf_from(lo, hi, tight, least),
    ensures
        full(t),
    decreases t,
{
    reveal(Tree::wf_from);
    match t {
        Tree::Leaf { .. } => {},
        Tree::Branch { keys, kids, .. } => {
            assert forall|i: int| 0 <= i < kids.len() implies full(#[trigger] kids[i]) by {
                lemma_full(kids[i], crate::tree::kid_lo(keys, i, lo), crate::tree::kid_hi(keys, i, hi), tight, 2);
            }
        },
    }
}

/// Goes down from a page to its first leaf, or to its last one.
pub fn descend(pages: &Pages, pgid: Pgid, to_last: bool, stack: &mut Vec<ElemRef>, Ghost(base): Ghost<Base>)
    requires
        on_disk(*pages, base, pgid),
        full(base.forest[pgid]),
    ensures
        final(stack)@.len() > old(stack)@.len(),
        final(stack)@.take(old(stack)@.len() as int) == old(stack)@,
        on_path(base.forest[pgid], final(stack)@, old(stack)@.len() as int),
        ordinal(base.forest[pgid], final(stack)@, old(stack)@.len() as int) == (if to_last {
            base.forest[pgid].leaves().len() - 1
        } else {
            0
        }),
        final(stack)@.last().index == 0,
        !final(stack)@.last().in_memory,
    decreases base.forest[pgid],
{
    let ghost t = base.forest[pgid];
    let ghost s0 = stack@;
    let ghost k = stack@.len() as int;
    assert(base.page_ok(pgid));
    let page: &[u8] = pages.page(pgid);
    let hdr = PageHeader::read(page);
    if hdr.is_leaf() {
        stack.push(ElemRef { pgid, index: 0, in_memory: false });
        assert(stack@.take(k) =~= s0);
        return;
    }
    let ghost kids = t->kids;
    proof {
        lemma_kid(*pages, base, pgid, 0);
        lemma_kid(*pages, base, pgid, kids.len() - 1);
    }
    let index: usize = if to_last {
        hdr.count as usize - 1
    } else {
        0
    };
    let child: Pgid = branch_pgid(page, index);
    stack.push(ElemRef { pgid, index, in_memory: false });
    let ghost s1 = stack@;
    proof {
        assert(full(kids[index as int]));
        assert(decreases_to!(t => t->kids));
    }
    descend(pages, child, to_last, stack, Ghost(base));
    proof {
        let s = stack@;
        assert(s.take(k) =~= s0) by {
            assert(s.take(k + 1) == s1);
            assert forall|i: int| 0 <= i < k implies s[i] == s0[i] by {
                assert(s.take(k + 1)[i] == s1[i]);
            }
        }
        assert(s[k] == s1[k]) by {
            assert(s.take(k + 1)[k] == s1[k]);
        }
        if to_last {
            lemma_cat_split(kids, kids.len() - 1);
            assert(kids.skip(kids.len() as int) =~= Seq::<Tree>::empty());
            assert(cat_leaves(kids.skip(kids.len() as int)).len() == 0);
        } else {
            assert(kids.take(0) =~= Seq::<Tree>::empty());
            assert(cat_leaves(kids.take(0)).len() == 0);
        }
    }
}

/// Goes to the next leaf, or to the one before. Says whether there is one; if not, nothing is
/// changed.
pub fn step(pages: &Pages, pgid: Pgid, back: bool, stack: &mut Vec<ElemRef>, k: usize, Ghost(base): Ghost<Base>) -> (r:
    bool)
    requires
        on_disk(*pages, base, pgid),
        full(base.forest[pgid]),
        on_path(base.forest[pgid], old(stack)@, k as int),
    ensures
        on_path(base.forest[pgid], final(stack)@, k as int),
        final(stack)@.len() >= k,
        final(stack)@.take(k as int) == old(stack)@.take(k as int),
        r ==> {
            &&& ordinal(base.forest[pgid], final(stack)@, k as int) == ordinal(base.forest[pgid], old(stack)@, k as int)
                + (if back { -1int } else { 1int })
            &&& final(stack)@.last().index == 0
            &&& !final(stack)@.last().in_memory
        },
        !r ==> {
            &&& final(stack)@ == old(stack)@
            &&& ordinal(base.forest[pgid], old(stack)@, k as int) == (if back {
                0
            } else {
                base.forest[pgid].leaves().len() - 1
            })
        },
    decreases base.forest[pgid],
{
    let ghost t = base.forest[pgid];
    let ghost s0 = stack@;
    assert(base.page_ok(pgid));
    let page: &[u8] = pages.page(pgid);
    let hdr = PageHeader::read(page);
    if hdr.is_leaf() {
        return false;
    }
    let ghost kids = t->kids;
    assert(k + 1 < stack.len());
    let i: usize = stack[k].index;
    proof {
        lemma_kid(*pages, base, pgid, i as int);
        assert(full(kids[i as int]));
        assert(decreases_to!(t => t->kids));
    }
    let child: Pgid = branch_pgid(page, i);
    if step(pages, child, back, stack, k + 1, Ghost(base)) {
        proof {
            lemma_step_below(t, s0, stack@, k as int);
        }
        return true;
    }
    proof {
        lemma_step_ends(t, s0, k as int);
    }
    if back && i == 0 || !back && i + 1 >= hdr.count as usize {
        return false;
    }
    let j: usize = if back {
        i - 1
    } else {
        i + 1
    };
    proof {
        if back {
            lemma_step_over(kids, j as int);
        } else {
            lemma_step_over(kids, i as int);
        }
    }
    turn(pages, pgid, j, back, stack, k, Ghost(base));
    true
}

/// A step below a child is a step.
proof fn lemma_step_below(t: Tree, a: Seq<ElemRef>, b: Seq<ElemRef>, k: int)
    requires
        t is Branch,
        on_path(t, a, k),
        b.len() >= k + 1,
        b.take(k + 1) == a.take(k + 1),
        on_path(t->kids[a[k].index as int], b, k + 1),
    ensures
        on_path(t, b, k),
        b.take(k) == a.take(k),
        ordinal(t, b, k) - ordinal(t, a, k) == ordinal(t->kids[a[k].index as int], b, k + 1) - ordinal(
            t->kids[a[k].index as int],
            a,
            k + 1,
        ),
{
    assert(k < a.len() - 1);
    assert forall|j: int| 0 <= j <= k implies #[trigger] b[j] == a[j] by {
        assert(b.take(k + 1)[j] == b[j]);
        assert(a.take(k + 1)[j] == a[j]);
    }
    assert(b.take(k) =~= a.take(k));
}

/// The first leaf below the first child is the first one, and the last below the last one the last.
proof fn lemma_step_ends(t: Tree, s: Seq<ElemRef>, k: int)
    requires
        t is Branch,
        on_path(t, s, k),
    ensures
        ({
            let i = s[k].index as int;
            let o = ordinal(t->kids[i], s, k + 1);
            &&& i == 0 ==> ordinal(t, s, k) == o
            &&& i == t->kids.len() - 1 ==> ordinal(t, s, k) - o == t.leaves().len() - t->kids[i].leaves().len()
            &&& ordinal(t, s, k) == cat_leaves(t->kids.take(i)).len() + o
        }),
{
    let kids = t->kids;
    let i = s[k].index as int;
    lemma_cat_split(kids, i);
    if i == 0 {
        assert(kids.take(0) =~= Seq::<Tree>::empty());
        assert(cat_leaves(kids.take(0)).len() == 0);
    }
    if i == kids.len() - 1 {
        assert(kids.skip(i + 1) =~= Seq::<Tree>::empty());
        assert(cat_leaves(kids.skip(i + 1)).len() == 0);
    }
}

/// The leaves in front of the next child.
proof fn lemma_step_over(kids: Seq<Tree>, i: int)
    requires
        0 <= i < kids.len() - 1,
    ensures
        cat_leaves(kids.take(i + 1)).len() == cat_leaves(kids.take(i)).len() + kids[i].leaves().len(),
{
    assert(kids.take(i + 1).drop_last() =~= kids.take(i));
    assert(kids.take(i + 1).last() == kids[i]);
}

/// Turns a path to child `j` of a branch, and there to the first leaf or the last one.
fn turn(
    pages: &Pages,
    pgid: Pgid,
    j: usize,
    to_last: bool,
    stack: &mut Vec<ElemRef>,
    k: usize,
    Ghost(base): Ghost<Base>,
)
    requires
        on_disk(*pages, base, pgid),
        full(base.forest[pgid]),
        base.forest[pgid] is Branch,
        j < base.forest[pgid]->kids.len(),
        k < old(stack)@.len(),
    ensures
        on_path(base.forest[pgid], final(stack)@, k as int),
        final(stack)@.len() >= k,
        final(stack)@.take(k as int) == old(stack)@.take(k as int),
        ordinal(base.forest[pgid], final(stack)@, k as int) == cat_leaves(
            base.forest[pgid]->kids.take(j as int),
        ).len() + (if to_last {
            base.forest[pgid]->kids[j as int].leaves().len() - 1
        } else {
            0
        }),
        final(stack)@.last().index == 0,
        !final(stack)@.last().in_memory,
{
    let ghost kids = base.forest[pgid]->kids;
    let ghost s0 = stack@;
    proof {
        lemma_kid(*pages, base, pgid, j as int);
        assert(full(kids[j as int]));
    }
    let page: &[u8] = pages.page(pgid);
    let next: Pgid = branch_pgid(page, j);
    assert(k < stack.len());
    stack.truncate(k + 1);
    stack.set(k, ElemRef { pgid, index: j, in_memory: false });
    let ghost s1 = stack@;
    descend(pages, next, to_last, stack, Ghost(base));
    proof {
        let s = stack@;
        assert(s[k as int] == s1[k as int]) by {
            assert(s.take(k + 1)[k as int] == s1[k as int]);
        }
        assert(s.take(k as int) =~= s0.take(k as int)) by {
            assert forall|x: int| 0 <= x < k implies s[x] == s0[x] by {
                assert(s.take(k + 1)[x] == s1[x]);
            }
        }
    }
}

// ---------------------------------------------------------------------------------------------
// Leaves in memory.

/// For each leaf below a node whether it is in memory.
pub open spec fn mem_flags(n: Node, base: Base) -> Seq<bool>
    decreases n, 0int, 0int,
{
    if n.is_leaf {
        seq![true]
    } else {
        mem_cat(n.children@, n.kids(base), base, n.children@.len() as int)
    }
}

/// The same for the first `i` children of a node.
pub open spec fn mem_cat(children: Seq<Option<Box<Node>>>, kids: Seq<Tree>, base: Base, i: int) -> Seq<bool>
    decreases children, 1int, i,
{
    if i <= 0 || i > children.len() || i > kids.len() {
        Seq::empty()
    } else {
        mem_cat(children, kids, base, i - 1) + child_flags_mem(children[i - 1], kids[i - 1], base)
    }
}

/// The same for a child.
pub open spec fn child_flags_mem(child: Option<Box<Node>>, kid: Tree, base: Base) -> Seq<bool>
    decreases child, 1int, 0int,
{
    match child {
        Some(c) => mem_flags(*c, base),
        None => Seq::new(kid.leaves().len(), |i: int| false),
    }
}

/// The leaf in memory that a path leads to from a node.
pub open spec fn leaf_node(n: Node, s: Seq<ElemRef>, k: int) -> Option<Node>
    decreases n,
{
    if n.is_leaf {
        Some(n)
    } else if 0 <= k < s.len() && 0 <= s[k].index < n.children@.len() {
        child_leaf(n.children@[s[k].index as int], s, k + 1)
    } else {
        None
    }
}

/// The same from a child.
pub open spec fn child_leaf(child: Option<Box<Node>>, s: Seq<ElemRef>, k: int) -> Option<Node>
    decreases child,
{
    match child {
        Some(c) => leaf_node(*c, s, k),
        None => None,
    }
}

/// A path on pages leads to a page.
pub proof fn lemma_disk_leaf(base: Base, t: Tree, s: Seq<ElemRef>, k: int)
    requires
        base.ok(),
        base.old.contains(t.pgid()),
        base.forest[t.pgid()] == t,
        on_path(t, s, k),
    ensures
        base.old.contains(s.last().pgid),
        base.forest[s.last().pgid] is Leaf,
        t.leaves()[ordinal(t, s, k)] == base.forest[s.last().pgid],
        0 <= ordinal(t, s, k) < t.leaves().len(),
    decreases t,
{
    lemma_ordinal(t, s, k);
    match t {
        Tree::Leaf { .. } => {},
        Tree::Branch { kids, .. } => {
            let i = s[k].index as int;
            assert(base.page_ok(t.pgid()));
            let p = decode(base.store[t.pgid()])[i].pgid;
            assert(kids[i] == base.forest[p]);
            assert(base.page_ok(p));
            assert(base.kids_old(t.pgid()));
            assert(base.old.contains(kids[i].pgid()));
            lemma_disk_leaf(base, kids[i], s, k + 1);
            lemma_cat_split(kids, i);
        },
    }
}

proof fn lemma_mem_cat(children: Seq<Option<Box<Node>>>, kids: Seq<Tree>, base: Base, n: int)
    requires
        children.len() == kids.len(),
        0 <= n <= kids.len(),
        forall|i: int| 0 <= i < n ==> child_flags_mem(#[trigger] children[i], kids[i], base).len() == kids[i].leaves().len(),
    ensures
        mem_cat(children, kids, base, n).len() == cat_leaves(kids.take(n)).len(),
        forall|i: int, j: int|
            0 <= i < n && 0 <= j < kids[i].leaves().len() ==> #[trigger] mem_cat(children, kids, base, n)[cat_leaves(
                kids.take(i),
            ).len() + j] == #[trigger] child_flags_mem(children[i], kids[i], base)[j],
    decreases n,
{
    if n == 0 {
        assert(kids.take(0) =~= Seq::<Tree>::empty());
    } else {
        lemma_mem_cat(children, kids, base, n - 1);
        let a = mem_cat(children, kids, base, n - 1);
        let b = child_flags_mem(children[n - 1], kids[n - 1], base);
        assert(kids.take(n).drop_last() =~= kids.take(n - 1));
        assert(kids.take(n).last() == kids[n - 1]);
        assert(b.len() == kids[n - 1].leaves().len());
        assert forall|i: int, j: int| 0 <= i < n && 0 <= j < kids[i].leaves().len() implies #[trigger] (a + b)[cat_leaves(
            kids.take(i),
        ).len() + j] == #[trigger] child_flags_mem(children[i], kids[i], base)[j] by {
            if i < n - 1 {
                lemma_leaves_upto(kids, i, n - 1);
                assert(a[cat_leaves(kids.take(i)).len() + j] == child_flags_mem(children[i], kids[i], base)[j]);
            }
        }
    }
}

proof fn lemma_leaves_upto(kids: Seq<Tree>, i: int, n: int)
    requires
        0 <= i < n <= kids.len(),
    ensures
        cat_leaves(kids.take(i)).len() + kids[i].leaves().len() <= cat_leaves(kids.take(n)).len(),
    decreases n,
{
    assert(kids.take(n).drop_last() =~= kids.take(n - 1));
    assert(kids.take(n).last() == kids[n - 1]);
    if i < n - 1 {
        lemma_leaves_upto(kids, i, n - 1);
    }
}

/// There is a flag for each leaf.
pub proof fn lemma_mem_len(n: Node, base: Base)
    requires
        n.ok(base),
    ensures
        mem_flags(n, base).len() == n.tree(base).leaves().len(),
    decreases n,
{
    if !n.is_leaf {
        n.lemma_shape(base);
        let kids = n.kids(base);
        assert forall|i: int| 0 <= i < kids.len() implies child_flags_mem(#[trigger] n.children@[i], kids[i], base).len()
            == kids[i].leaves().len() by {
            n.lemma_child(base, i);
            match n.children@[i] {
                Some(c) => {
                    lemma_mem_len(*c, base);
                },
                None => {},
            }
        }
        lemma_mem_cat(n.children@, kids, base, kids.len() as int);
        assert(kids.take(kids.len() as int) =~= kids);
    }
}

/// The leaf that a path leads to, in memory or on its page.
pub proof fn lemma_leaf_node(n: Node, base: Base, s: Seq<ElemRef>, k: int)
    requires
        base.ok(),
        n.ok(base),
        on_path(n.tree(base), s, k),
    ensures
        0 <= ordinal(n.tree(base), s, k) < n.tree(base).leaves().len(),
        mem_flags(n, base).len() == n.tree(base).leaves().len(),
        match leaf_node(n, s, k) {
            Some(m) => {
                &&& m.is_leaf
                &&& n.tree(base).leaves()[ordinal(n.tree(base), s, k)].items() == views(m.inodes@)
                &&& mem_flags(n, base)[ordinal(n.tree(base), s, k)]
            },
            None => {
                &&& base.old.contains(s.last().pgid)
                &&& base.forest[s.last().pgid] is Leaf
                &&& n.tree(base).leaves()[ordinal(n.tree(base), s, k)] == base.forest[s.last().pgid]
                &&& !mem_flags(n, base)[ordinal(n.tree(base), s, k)]
            },
        },
    decreases n,
{
    let t = n.tree(base);
    lemma_ordinal(t, s, k);
    lemma_mem_len(n, base);
    if !n.is_leaf {
        n.lemma_shape(base);
        let kids = n.kids(base);
        let i = s[k].index as int;
        n.lemma_child(base, i);
        lemma_cat_split(kids, i);
        assert forall|x: int| 0 <= x < kids.len() implies child_flags_mem(#[trigger] n.children@[x], kids[x], base).len()
            == kids[x].leaves().len() by {
            n.lemma_child(base, x);
            match n.children@[x] {
                Some(c) => {
                    lemma_mem_len(*c, base);
                },
                None => {},
            }
        }
        lemma_mem_cat(n.children@, kids, base, kids.len() as int);
        let o = ordinal(kids[i], s, k + 1);
        lemma_ordinal(kids[i], s, k + 1);
        assert(child_leaf(n.children@[i], s, k + 1) == leaf_node(n, s, k));
        assert(mem_cat(n.children@, kids, base, kids.len() as int)[cat_leaves(kids.take(i)).len() + o]
            == child_flags_mem(n.children@[i], kids[i], base)[o]);
        match n.children@[i] {
            Some(c) => {
                lemma_leaf_node(*c, base, s, k + 1);
            },
            None => {
                assert(base.page_ok(n.inodes@[i].pgid));
                lemma_disk_leaf(base, kids[i], s, k + 1);
            },
        }
    }
}

/// Follows a path to a leaf in memory.
pub fn find_leaf<'b>(n: &'b Node, stack: &[ElemRef], k: usize, Ghost(base): Ghost<Base>) -> (r: Option<&'b Node>)
    requires
        n.ok(base),
        on_path(n.tree(base), stack@, k as int),
    ensures
        match leaf_node(*n, stack@, k as int) {
            Some(m) => r is Some && *r->0 == m,
            None => r is None,
        },
    decreases n,
{
    if n.is_leaf {
        return Some(n);
    }
    proof {
        n.lemma_shape(base);
        n.lemma_child(base, stack@[k as int].index as int);
        assert(child_leaf(n.children@[stack@[k as int].index as int], stack@, k + 1) == leaf_node(*n, stack@, k as int));
    }
    assert(k + 1 < stack.len());
    match &n.children[stack[k].index] {
        Some(c) => find_leaf(c, stack, k + 1, Ghost(base)),
        None => None,
    }
}

} // verus!
