//! Rebalancing: nodes that have become small after deletions are joined with a neighbour.
use vstd::prelude::*;
use crate::freelist::{Freelist, FreelistV};
use crate::inode::{data_len, page_len, views, Inode, InodeV};
use crate::join::{joined, lemma_fewer, lemma_with_joined, lemma_without_kid, wf_but, with_joined, without_kid};
use crate::ledger::{free_page, ledger, lemma_since, lemma_since_same, listed, since};
use crate::node::{child_flags, flagged_in, lemma_flagged_update, lemma_replaced, Base, Node, Pages};
use crate::page::{PAGE_HEADER_SIZE, Pgid, Txid};
use crate::tending::{calm, child_node, child_set, collapses, joined_into, joins, rebalances, settles, tending, tends, tends_at, tends_root, tends_root_by};
use crate::tree::{kid_hi, kid_lo, kids_use, lemma_cat_one, lemma_cat_split, lemma_cat_update, lemma_wf_branch, lemma_wf_one, Key, Tree};

verus! {

/// Whether the elements take more than `limit` bytes on a page.
pub fn larger_than(inodes: &[Inode], limit: usize) -> (r: bool)
    ensures
        r == (page_len(views(inodes@)) > limit),
{
    let ghost v = views(inodes@);
    if limit < PAGE_HEADER_SIZE {
        return true;
    }
    let mut left: usize = limit - PAGE_HEADER_SIZE;
    let n: usize = inodes.len();
    let mut i: usize = 0;
    assert(v.take(0) =~= Seq::<InodeV>::empty());
    while i < n
        invariant
            i <= n,
            n == inodes@.len(),
            v == views(inodes@),
            limit - left == 16 + 16 * i + data_len(v.take(i as int)),
        decreases n - i,
    {
        let k: usize = inodes[i].key.len();
        let w: usize = inodes[i].value.len();
        proof {
            assert(v.take(i + 1).drop_last() =~= v.take(i as int));
            assert(v.take(i + 1).last() == inodes@[i as int]@);
            lemma_data_take(v, i + 1);
        }
        if left < 16 || left - 16 < k || left - 16 - k < w {
            return true;
        }
        left = left - 16 - k - w;
        i = i + 1;
    }
    assert(v.take(n as int) =~= v);
    false
}

/// A part of a list takes no more bytes than the list.
pub proof fn lemma_data_take(v: Seq<InodeV>, i: int)
    requires
        0 <= i <= v.len(),
    ensures
        data_len(v.take(i)) <= data_len(v),
    decreases v.len() - i,
{
    if i == v.len() {
        assert(v.take(i) =~= v);
    } else {
        lemma_data_take(v, i + 1);
        assert(v.take(i + 1).drop_last() =~= v.take(i));
    }
}

/// How many nodes are to be rebalanced in two lists of children one after the other.
pub proof fn lemma_flagged_add(a: Seq<Option<Box<Node>>>, b: Seq<Option<Box<Node>>>)
    ensures
        flagged_in(a + b) == flagged_in(a) + flagged_in(b),
    decreases b.len(),
{
    if b.len() == 0 {
        assert(a + b =~= a);
    } else {
        lemma_flagged_add(a, b.drop_last());
        assert((a + b).drop_last() =~= a + b.drop_last());
        assert((a + b).last() == b.last());
    }
}

/// How many nodes are to be rebalanced when one child is gone.
pub proof fn lemma_flagged_remove(children: Seq<Option<Box<Node>>>, i: int)
    requires
        0 <= i < children.len(),
    ensures
        flagged_in(children.remove(i)) == flagged_in(children) - child_flags(children[i]),
        flagged_in(children.update(i, None)) == flagged_in(children) - child_flags(children[i]),
        child_flags(children[i]) <= flagged_in(children),
{
    let a = children.take(i);
    let one = seq![children[i]];
    let none = seq![None::<Box<Node>>];
    let b = children.skip(i + 1);
    lemma_flagged_add(a, b);
    lemma_flagged_add(a + one, b);
    lemma_flagged_add(a, one);
    lemma_flagged_add(a + none, b);
    lemma_flagged_add(a, none);
    assert(children.remove(i) =~= a + b);
    assert(children =~= a + one + b);
    assert(children.update(i, None) =~= a + none + b);
    assert(one.drop_last() =~= Seq::<Option<Box<Node>>>::empty());
    assert(none.drop_last() =~= Seq::<Option<Box<Node>>>::empty());
    assert(one.last() == children[i]);
    assert(none.last() == None::<Box<Node>>);
    assert(flagged_in(Seq::<Option<Box<Node>>>::empty()) == 0);
    assert(flagged_in(one) == child_flags(children[i]));
    assert(child_flags(None::<Box<Node>>) == 0);
    assert(flagged_in(none) == 0);
}

/// A branch whose element `i` is gone.
proof fn lemma_removed(n: Node, m: Node, base: Base, i: int)
    requires
        n.ok(base),
        !n.is_leaf,
        0 <= i < n.inodes@.len(),
        m.is_leaf == n.is_leaf,
        m.pgid == n.pgid,
        m.overflow == n.overflow,
        m.inodes@ == n.inodes@.remove(i),
        m.children@ == n.children@.remove(i),
    ensures
        m.ok(base),
        m.tree(base) == without_kid(n.tree(base), i),
{
    reveal(Node::ok);
    assert forall|j: int| 0 <= j < m.inodes@.len() implies m.inodes@[j] == n.inodes@[if j < i { j } else { j + 1 }]
        && m.children@[j] == n.children@[if j < i { j } else { j + 1 }] by {
    }
    assert(m.keys() =~= n.keys().remove(i));
    assert forall|j: int| 0 <= j < m.inodes@.len() implies m.kids(base)[j] == n.kids(base).remove(i)[j] by {
    }
    assert(m.kids(base) =~= n.kids(base).remove(i));
    assert forall|j: int| 0 <= j < m.children@.len() implies match #[trigger] m.children@[j] {
        Some(x) => x.ok(base) && x.pgid == m.inodes@[j].pgid && x.solid(),
        None => base.forest[m.inodes@[j].pgid].first_key() == Some(m.inodes@[j].key@),
    } by {
        assert(m.children@[j] == n.children@[if j < i { j } else { j + 1 }]);
    }
}

/// A branch whose child `r` was joined to the one before it, giving `c`.
proof fn lemma_joined_node(n: Node, m: Node, base: Base, r: int, c: Node)
    requires
        n.ok(base),
        !n.is_leaf,
        1 <= r < n.inodes@.len(),
        m.is_leaf == n.is_leaf,
        m.pgid == n.pgid,
        m.overflow == n.overflow,
        m.inodes@ == n.inodes@.remove(r),
        m.children@ == n.children@.update(r - 1, Some(Box::new(c))).remove(r),
        c.ok(base),
        c.solid(),
        c.pgid == n.inodes@[r - 1].pgid,
        c.tree(base) == joined(n.kids(base)[r - 1], n.kids(base)[r]),
    ensures
        m.ok(base),
        m.tree(base) == with_joined(n.tree(base), r),
{
    reveal(Node::ok);
    assert forall|j: int| 0 <= j < m.inodes@.len() implies m.inodes@[j] == n.inodes@[if j < r { j } else { j + 1 }]
        && m.children@[j] == (if j == r - 1 {
        Some(Box::new(c))
    } else {
        n.children@[if j < r {
            j
        } else {
            j + 1
        }]
    }) by {
    }
    assert(m.keys() =~= n.keys().remove(r));
    let kids = n.kids(base).update(r - 1, c.tree(base)).remove(r);
    assert forall|j: int| 0 <= j < m.inodes@.len() implies m.kids(base)[j] == kids[j] by {
        if j != r - 1 {
            assert(m.children@[j] == n.children@[if j < r { j } else { j + 1 }]);
        }
    }
    assert(m.kids(base) =~= kids);
    assert forall|j: int| 0 <= j < m.children@.len() implies match #[trigger] m.children@[j] {
        Some(x) => x.ok(base) && x.pgid == m.inodes@[j].pgid && x.solid(),
        None => base.forest[m.inodes@[j].pgid].first_key() == Some(m.inodes@[j].key@),
    } by {
        if j != r - 1 {
            assert(m.children@[j] == n.children@[if j < r { j } else { j + 1 }]);
        }
    }
}

/// What a child uses, its branch uses.
pub proof fn lemma_kid_use(t: Tree, i: int, p: Pgid)
    requires
        t is Branch,
        0 <= i < t->kids.len(),
    ensures
        t->kids[i].own(p) <= t->kids[i].uses(p) <= t.uses(p),
{
    lemma_cat_split(t->kids, i);
    assert(kids_use(t->kids, p) == kids_use(t->kids.take(i), p) + t->kids[i].uses(p) + kids_use(t->kids.skip(i + 1), p));
}

/// The node that has the elements of two neighbours.
proof fn lemma_appended(l: Node, r: Node, m: Node, base: Base)
    requires
        l.ok(base),
        r.ok(base),
        l.is_leaf == r.is_leaf,
        m.is_leaf == l.is_leaf,
        m.pgid == l.pgid,
        m.overflow == l.overflow,
        m.unbalanced == l.unbalanced,
        m.inodes@ == l.inodes@ + r.inodes@,
        m.children@ == l.children@ + r.children@,
    ensures
        m.ok(base),
        m.tree(base) == joined(l.tree(base), r.tree(base)),
        m.flagged() + (if r.unbalanced { 1nat } else { 0nat }) == l.flagged() + r.flagged(),
{
    reveal(Node::ok);
    lemma_flagged_add(l.children@, r.children@);
    let n = l.inodes@.len();
    assert forall|j: int| 0 <= j < m.inodes@.len() implies m.inodes@[j] == (if j < n {
        l.inodes@[j]
    } else {
        r.inodes@[j - n]
    }) by {
    }
    if m.is_leaf {
        assert(views(m.inodes@) =~= views(l.inodes@) + views(r.inodes@));
        assert(base.subs(views(m.inodes@)) =~= base.subs(views(l.inodes@)) + base.subs(views(r.inodes@)));
    } else {
        assert forall|j: int| 0 <= j < m.children@.len() implies m.children@[j] == (if j < n {
            l.children@[j]
        } else {
            r.children@[j - n]
        }) by {
        }
        assert(m.keys() =~= l.keys() + r.keys());
        assert forall|j: int| 0 <= j < m.inodes@.len() implies m.kids(base)[j] == (l.kids(base) + r.kids(base))[j] by {
            if j < n {
                assert(m.children@[j] == l.children@[j]);
            } else {
                assert(m.children@[j] == r.children@[j - n]);
            }
        }
        assert(m.kids(base) =~= l.kids(base) + r.kids(base));
        assert forall|j: int| 0 <= j < m.children@.len() implies match #[trigger] m.children@[j] {
            Some(x) => x.ok(base) && x.pgid == m.inodes@[j].pgid && x.solid(),
            None => base.forest[m.inodes@[j].pgid].first_key() == Some(m.inodes@[j].key@),
        } by {
            if j < n {
                assert(m.children@[j] == l.children@[j]);
            } else {
                assert(m.children@[j] == r.children@[j - n]);
            }
        }
    }
}

/// What rebalancing leaves as it was: what the tree holds, and how often each page is in use or
/// on the freelist.
pub open spec fn kept(before: Tree, after: Tree, list0: FreelistV, list1: FreelistV) -> bool {
    &&& after.items() == before.items()
    &&& after.height() == before.height()
    &&& after.pgid() == before.pgid()
    &&& after.over() == before.over()
    &&& forall|p: Pgid| #[trigger] after.uses(p) + listed(list1, p) == before.uses(p) + listed(list0, p)
}

/// No page is in use twice, or in use and on the freelist.
pub open spec fn sound(t: Tree, list: FreelistV) -> bool {
    forall|p: Pgid| #[trigger] t.uses(p) + listed(list, p) <= 1
}

/// The first node with the elements of the second one behind its own.
fn append_node(left: Box<Node>, right: Box<Node>) -> (m: Box<Node>)
    ensures
        *m == (Node { inodes: m.inodes, children: m.children, ..*left }),
        m.inodes@ == left.inodes@ + right.inodes@,
        m.children@ == left.children@ + right.children@,
{
    let mut m: Box<Node> = left;
    let mut right: Box<Node> = right;
    m.inodes.append(&mut right.inodes);
    m.children.append(&mut right.children);
    m
}

impl Node {
    /// Takes the nodes of child `r` and the one before it out of a branch.
    fn take_two(&mut self, r: usize, pages: &Pages, Ghost(base): Ghost<Base>) -> (two: (Box<Node>, Box<Node>))
        requires
            base.ok(),
            pages.backs(base),
            old(self).ok(base),
            !old(self).is_leaf,
            1 <= r < old(self).inodes@.len(),
        ensures
            two.0.ok(base),
            two.0.solid(),
            two.1.ok(base),
            two.0.tree(base) == old(self).kids(base)[r - 1],
            two.1.tree(base) == old(self).kids(base)[r as int],
            two.0.pgid == old(self).inodes@[r - 1].pgid,
            two.1.pgid == old(self).inodes@[r as int].pgid,
            two.0.flagged() == child_flags(old(self).children@[r - 1]),
            two.1.flagged() == child_flags(old(self).children@[r as int]),
            child_node(*old(self), base, r - 1, *two.0),
            child_node(*old(self), base, r as int, *two.1),
            *final(self) == (Node { children: final(self).children, ..*old(self) }),
            final(self).children@ == old(self).children@.update(r as int, None).update(r - 1, None),
    {
        let ghost n0 = *self;
        proof {
            n0.lemma_shape(base);
            n0.lemma_child(base, r as int);
            n0.lemma_child(base, r - 1);
        }
        let right: Box<Node> = self.take_child(r, pages, Ghost(base));
        let left: Box<Node> = self.take_child(r - 1, pages, Ghost(base));
        (left, right)
    }

    /// Puts back a child that has taken up the next one.
    fn put_joined(&mut self, r: usize, merged: Box<Node>)
        requires
            1 <= r < old(self).inodes@.len(),
            old(self).children@.len() == old(self).inodes@.len(),
        ensures
            *final(self) == (Node { inodes: final(self).inodes, children: final(self).children, ..*old(self) }),
            final(self).inodes@ == old(self).inodes@.remove(r as int),
            final(self).children@ == old(self).children@.update(r - 1, Some(merged)).remove(r as int),
    {
        self.children.set(r - 1, Some(merged));
        self.inodes.remove(r);
        self.children.remove(r);
    }

    /// Joins child `r` to the one before it.
    fn join_children(
        &mut self,
        r: usize,
        pages: &Pages,
        fl: &mut Freelist,
        txid: Txid,
        Ghost(base): Ghost<Base>,
        Ghost(lo): Ghost<Option<Key>>,
        Ghost(hi): Ghost<Option<Key>>,
        Ghost(c): Ghost<int>,
    )
        requires
            base.ok(),
            pages.backs(base),
            old(self).ok(base),
            !old(self).is_leaf,
            1 <= r < old(self).inodes@.len(),
            c == r || c == r - 1,
            wf_but(old(self).tree(base), lo, hi, c),
            old(fl).inv(),
            ledger(old(fl)@, base, txid),
            sound(old(self).tree(base), old(fl)@),
        ensures
            joins(*old(self), *final(self), base, r as int),
            final(self).ok(base),
            !final(self).is_leaf,
            final(self).tree(base).wf_from(lo, hi, false, 1),
            kept(old(self).tree(base), final(self).tree(base), old(fl)@, final(fl)@),
            final(self).inodes@.len() == old(self).inodes@.len() - 1,
            final(self).unbalanced == old(self).unbalanced,
            flagged_in(final(self).children@) <= flagged_in(old(self).children@),
            final(fl).inv(),
            ledger(final(fl)@, base, txid),
            since(old(fl)@, final(fl)@, txid),
            final(fl)@.free == old(fl)@.free,
    {
        let ghost n0 = *self;
        let ghost t0 = self.tree(base);
        proof {
            n0.lemma_shape(base);
        }
        let (left, right): (Box<Node>, Box<Node>) = self.take_two(r, pages, Ghost(base));
        let pgid: Pgid = right.pgid;
        let overflow: u32 = right.overflow;
        let ghost l0 = *left;
        let ghost r0 = *right;
        let merged: Box<Node> = append_node(left, right);
        let ghost m = *merged;
        self.put_joined(r, merged);
        proof {
            assert(self.children@ =~= n0.children@.update(r - 1, Some(Box::new(m))).remove(r as int));
            assert(joined_into(n0, *self, base, r as int, l0, r0, m));
            lemma_join_children(n0, *self, base, r as int, l0, r0, m, lo, hi, c, fl@);
        }
        let ghost list0 = fl@;
        free_page(fl, txid, pgid, overflow, Ghost(base));
        proof {
            assert forall|p: Pgid| #[trigger] self.tree(base).uses(p) + listed(fl@, p) == t0.uses(p) + listed(list0, p) by {
                assert(listed(fl@, p) == listed(list0, p) + (if pgid <= p <= pgid + overflow { 1nat } else { 0nat }));
            }
        }
    }
}

/// What joining child `r` to the one before it does to a branch.
proof fn lemma_join_children(
    n0: Node,
    n1: Node,
    base: Base,
    r: int,
    l0: Node,
    r0: Node,
    m: Node,
    lo: Option<Key>,
    hi: Option<Key>,
    c: int,
    list: FreelistV,
)
    requires
        base.ok(),
        n0.ok(base),
        !n0.is_leaf,
        1 <= r < n0.inodes@.len(),
        c == r || c == r - 1,
        wf_but(n0.tree(base), lo, hi, c),
        sound(n0.tree(base), list),
        l0.ok(base),
        l0.solid(),
        r0.ok(base),
        l0.tree(base) == n0.kids(base)[r - 1],
        r0.tree(base) == n0.kids(base)[r],
        l0.pgid == n0.inodes@[r - 1].pgid,
        r0.pgid == n0.inodes@[r].pgid,
        l0.flagged() == child_flags(n0.children@[r - 1]),
        r0.flagged() == child_flags(n0.children@[r]),
        m == (Node { inodes: m.inodes, children: m.children, ..l0 }),
        m.inodes@ == l0.inodes@ + r0.inodes@,
        m.children@ == l0.children@ + r0.children@,
        n1 == (Node { inodes: n1.inodes, children: n1.children, ..n0 }),
        n1.inodes@ == n0.inodes@.remove(r),
        n1.children@ == n0.children@.update(r - 1, Some(Box::new(m))).remove(r),
    ensures
        n1.ok(base),
        n1.tree(base).wf_from(lo, hi, false, 1),
        n1.tree(base).items() == n0.tree(base).items(),
        n1.tree(base).height() == n0.tree(base).height(),
        n1.tree(base).pgid() == n0.tree(base).pgid(),
        n1.tree(base).over() == n0.tree(base).over(),
        flagged_in(n1.children@) + (if r0.unbalanced { 1nat } else { 0nat }) == flagged_in(n0.children@),
        base.old.contains(r0.pgid),
        base.forest[r0.pgid].over() == r0.overflow,
        forall|p: Pgid| r0.pgid <= p <= r0.pgid + r0.overflow ==> listed(list, p) == 0,
        forall|p: Pgid| #[trigger]
            n1.tree(base).uses(p) + (if r0.pgid <= p <= r0.pgid + r0.overflow { 1nat } else { 0nat })
                == n0.tree(base).uses(p),
{
    reveal(Node::ok);
    reveal(Tree::wf_from);
    let t0 = n0.tree(base);
    let right = t0->kids[r];
    assert(t0->kids[r - 1].height() == right.height()) by {
        assert(t0->kids[r - 1].height() == t0->kids[0].height());
    }
    assert(l0.is_leaf == r0.is_leaf);
    lemma_appended(l0, r0, m, base);
    let kept = n0.children@.update(r - 1, Some(Box::new(m)));
    lemma_joined_node(n0, n1, base, r, m);
    lemma_with_joined(t0, lo, hi, c, r);
    assert(n1.tree(base) == with_joined(t0, r));
    lemma_flagged_update(n0.children@, r - 1, m);
    lemma_flagged_remove(kept, r);
    assert(kept[r] == n0.children@[r]);
    assert(base.old.contains(n0.inodes@[r].pgid));
    assert(base.page_ok(r0.pgid));
    assert(right.pgid() == r0.pgid && right.over() == r0.overflow);
    assert forall|p: Pgid| r0.pgid <= p <= r0.pgid + r0.overflow implies listed(list, p) == 0 by {
        lemma_kid_use(t0, r, p);
        assert(t0.uses(p) + listed(list, p) <= 1);
    }
    assert forall|p: Pgid| #[trigger]
        n1.tree(base).uses(p) + (if r0.pgid <= p <= r0.pgid + r0.overflow { 1nat } else { 0nat })
            == n0.tree(base).uses(p) by {
        lemma_kid_use(t0, r, p);
    }
}

/// What is the same before and after a child of a branch is looked after.
pub open spec fn tended(n0: Node, n1: Node, base: Base, lo: Option<Key>, hi: Option<Key>, list0: FreelistV, list1: FreelistV) -> bool {
    &&& n1.ok(base)
    &&& n1.is_leaf == n0.is_leaf
    &&& n1.pgid == n0.pgid
    &&& n1.overflow == n0.overflow
    &&& n1.tree(base).wf_from(lo, hi, false, 1)
    &&& kept(n0.tree(base), n1.tree(base), list0, list1)
    &&& {
        ||| n1.unbalanced == n0.unbalanced && n1.inodes@.len() == n0.inodes@.len()
        ||| n1.unbalanced && n1.inodes@.len() == n0.inodes@.len() - 1
    }
}

impl Node {
    /// Drops child `i`, which is empty.
    fn drop_child(
        &mut self,
        i: usize,
        child: Box<Node>,
        fl: &mut Freelist,
        txid: Txid,
        Ghost(base): Ghost<Base>,
        Ghost(n0): Ghost<Node>,
        Ghost(lo): Ghost<Option<Key>>,
        Ghost(hi): Ghost<Option<Key>>,
    )
        requires
            base.ok(),
            n0.ok(base),
            !n0.is_leaf,
            i < n0.inodes@.len(),
            2 <= n0.inodes@.len(),
            wf_but(n0.tree(base), lo, hi, i as int),
            *old(self) == (Node { children: old(self).children, unbalanced: true, ..n0 }),
            old(self).children@ == n0.children@.update(i as int, None),
            child.ok(base),
            child.pgid == n0.inodes@[i as int].pgid,
            child.tree(base) == n0.kids(base)[i as int],
            child.inodes@.len() == 0,
            child_flags(n0.children@[i as int]) > 0,
            old(fl).inv(),
            ledger(old(fl)@, base, txid),
            sound(n0.tree(base), old(fl)@),
        ensures
            *final(self) == (Node {
                inodes: final(self).inodes,
                children: final(self).children,
                unbalanced: true,
                ..n0
            }),
            final(self).inodes@ == n0.inodes@.remove(i as int),
            final(self).children@ == n0.children@.remove(i as int),
            tended(n0, *final(self), base, lo, hi, old(fl)@, final(fl)@),
            flagged_in(final(self).children@) < flagged_in(n0.children@),
            final(fl).inv(),
            ledger(final(fl)@, base, txid),
            since(old(fl)@, final(fl)@, txid),
            final(fl)@.free == old(fl)@.free,
    {
        proof {
            n0.lemma_shape(base);
        }
        self.inodes.remove(i);
        self.children.remove(i);
        let ghost list0 = fl@;
        proof {
            assert(self.children@ =~= n0.children@.remove(i as int));
            lemma_drop_child(n0, *self, base, i as int, *child, lo, hi, list0);
        }
        free_page(fl, txid, child.pgid, child.overflow, Ghost(base));
        proof {
            assert forall|p: Pgid| #[trigger]
                self.tree(base).uses(p) + listed(fl@, p) == n0.tree(base).uses(p) + listed(list0, p) by {
                assert(listed(fl@, p) == listed(list0, p) + (if child.pgid <= p <= child.pgid + child.overflow {
                    1nat
                } else {
                    0nat
                }));
            }
        }
    }

    /// Looks after child `i`, from which something was deleted: if it has become small it is
    /// dropped or joined with a neighbour.
    fn settle_child(
        &mut self,
        i: usize,
        merge_at: usize,
        pages: &Pages,
        fl: &mut Freelist,
        txid: Txid,
        Ghost(base): Ghost<Base>,
        Ghost(lo): Ghost<Option<Key>>,
        Ghost(hi): Ghost<Option<Key>>,
    )
        requires
            base.ok(),
            pages.backs(base),
            old(self).ok(base),
            !old(self).is_leaf,
            i < old(self).inodes@.len(),
            2 <= old(self).inodes@.len(),
            old(self).children@[i as int] is Some,
            old(self).children@[i as int]->0.unbalanced,
            wf_but(old(self).tree(base), lo, hi, i as int),
            old(fl).inv(),
            ledger(old(fl)@, base, txid),
            sound(old(self).tree(base), old(fl)@),
        ensures
            settles(*old(self), *final(self), base, merge_at as int, i as int),
            tended(*old(self), *final(self), base, lo, hi, old(fl)@, final(fl)@),
            flagged_in(final(self).children@) < flagged_in(old(self).children@),
            final(fl).inv(),
            ledger(final(fl)@, base, txid),
            since(old(fl)@, final(fl)@, txid),
            final(fl)@.free == old(fl)@.free,
    {
        let ghost n0 = *self;
        proof {
            n0.lemma_shape(base);
            n0.lemma_child(base, i as int);
        }
        let mut child: Box<Node> = self.take_child(i, pages, Ghost(base));
        let ghost c0 = *child;
        child.unbalanced = false;
        let ghost c1 = *child;
        proof {
            lemma_calmed(c0, c1, base);
            assert(c1 == calm(c0));
        }
        let nkeys: usize = child.inodes.len();
        let min_keys: usize = if child.is_leaf { 1 } else { 2 };
        let big: bool = larger_than(child.inodes.as_slice(), merge_at);
        if big && nkeys > min_keys {
            self.children.set(i, Some(child));
            proof {
                assert(self.children@ =~= n0.children@.update(i as int, Some(Box::new(c1))));
                lemma_left_alone(n0, *self, base, i as int, c1, lo, hi);
                lemma_since_same(fl@, txid);
            }
            return;
        }
        self.unbalanced = true;
        if nkeys == 0 {
            self.drop_child(i, child, fl, txid, Ghost(base), Ghost(n0), Ghost(lo), Ghost(hi));
            return;
        }
        self.children.set(i, Some(child));
        let ghost n1 = *self;
        proof {
            assert(self.children@ =~= n0.children@.update(i as int, Some(Box::new(c1))));
            lemma_replaced(n0, n1, base, i as int, c1);
            assert(n1.kids(base) =~= n0.kids(base));
            assert(n1.tree(base) == n0.tree(base));
            lemma_flagged_update(n0.children@, i as int, c1);
        }
        proof {
            assert(child_set(Node { unbalanced: true, ..n0 }, n1, i as int, c1));
        }
        let r: usize = if i == 0 { 1 } else { i };
        self.join_children(r, pages, fl, txid, Ghost(base), Ghost(lo), Ghost(hi), Ghost(i as int));
    }
}

/// Clearing the mark of a node changes nothing else.
proof fn lemma_calmed(c0: Node, c1: Node, base: Base)
    requires
        c0.ok(base),
        c0.unbalanced,
        c1 == (Node { unbalanced: false, ..c0 }),
    ensures
        c1.ok(base),
        c1.tree(base) == c0.tree(base),
        c1.flagged() + 1 == c0.flagged(),
{
    reveal(Node::ok);
    assert(c1.keys() =~= c0.keys());
    assert(c1.kids(base) =~= c0.kids(base));
}

/// A child that is large enough stays as it is.
proof fn lemma_left_alone(n0: Node, n1: Node, base: Base, i: int, c: Node, lo: Option<Key>, hi: Option<Key>)
    requires
        n0.ok(base),
        !n0.is_leaf,
        0 <= i < n0.inodes@.len(),
        wf_but(n0.tree(base), lo, hi, i),
        n1 == (Node { children: n1.children, ..n0 }),
        n1.children@ == n0.children@.update(i, Some(Box::new(c))),
        c.ok(base),
        c.pgid == n0.inodes@[i].pgid,
        c.tree(base) == n0.kids(base)[i],
        c.is_leaf || c.inodes@.len() >= 2,
        c.inodes@.len() >= 1,
        c.flagged() < child_flags(n0.children@[i]),
    ensures
        n1.ok(base),
        n1.tree(base) == n0.tree(base),
        n1.tree(base).wf_from(lo, hi, false, 1),
        flagged_in(n1.children@) < flagged_in(n0.children@),
{
    reveal(Node::ok);
    reveal(Tree::wf_from);
    lemma_replaced(n0, n1, base, i, c);
    assert(n1.kids(base) =~= n0.kids(base));
    lemma_flagged_update(n0.children@, i, c);
    let t = n0.tree(base);
    assert(t->kids[i].wf_from(kid_lo(t->keys, i, lo), kid_hi(t->keys, i, hi), false, 1));
    assert forall|j: int| 0 <= j < t->kids.len() implies (#[trigger] t->kids[j]).wf_from(
        kid_lo(t->keys, j, lo),
        kid_hi(t->keys, j, hi),
        false,
        2,
    ) by {
    }
}

/// What dropping an empty child does to a branch.
proof fn lemma_drop_child(n0: Node, n1: Node, base: Base, i: int, c: Node, lo: Option<Key>, hi: Option<Key>, list: FreelistV)
    requires
        base.ok(),
        n0.ok(base),
        !n0.is_leaf,
        0 <= i < n0.inodes@.len(),
        2 <= n0.inodes@.len(),
        wf_but(n0.tree(base), lo, hi, i),
        n1 == (Node { inodes: n1.inodes, children: n1.children, unbalanced: true, ..n0 }),
        n1.inodes@ == n0.inodes@.remove(i),
        n1.children@ == n0.children@.remove(i),
        c.ok(base),
        c.pgid == n0.inodes@[i].pgid,
        c.tree(base) == n0.kids(base)[i],
        c.inodes@.len() == 0,
        child_flags(n0.children@[i]) > 0,
        sound(n0.tree(base), list),
    ensures
        n1.ok(base),
        n1.tree(base).wf_from(lo, hi, false, 1),
        n1.tree(base).items() == n0.tree(base).items(),
        n1.tree(base).height() == n0.tree(base).height(),
        n1.tree(base).pgid() == n0.tree(base).pgid(),
        n1.tree(base).over() == n0.tree(base).over(),
        flagged_in(n1.children@) < flagged_in(n0.children@),
        base.old.contains(c.pgid),
        base.forest[c.pgid].over() == c.overflow,
        forall|p: Pgid| c.pgid <= p <= c.pgid + c.overflow ==> listed(list, p) == 0,
        forall|p: Pgid| #[trigger]
            n1.tree(base).uses(p) + (if c.pgid <= p <= c.pgid + c.overflow { 1nat } else { 0nat })
                == n0.tree(base).uses(p),
{
    reveal(Node::ok);
    reveal(Tree::wf_from);
    let t0 = n0.tree(base);
    let gone = t0->kids[i];
    lemma_removed(n0, n1, base, i);
    assert(gone.wf_from(kid_lo(t0->keys, i, lo), kid_hi(t0->keys, i, hi), false, 1));
    assert(gone is Leaf);
    assert(gone.items().len() == 0);
    lemma_without_kid(t0, lo, hi, i);
    lemma_flagged_remove(n0.children@, i);
    assert(base.old.contains(n0.inodes@[i].pgid));
    assert(base.page_ok(c.pgid));
    assert forall|p: Pgid| c.pgid <= p <= c.pgid + c.overflow implies listed(list, p) == 0 by {
        lemma_kid_use(t0, i, p);
        assert(t0.uses(p) + listed(list, p) <= 1);
    }
    assert forall|p: Pgid| #[trigger]
        n1.tree(base).uses(p) + (if c.pgid <= p <= c.pgid + c.overflow { 1nat } else { 0nat })
            == n0.tree(base).uses(p) by {
        assert(gone.uses(p) == gone.own(p));
    }
}

/// A branch one child of which was looked after.
proof fn lemma_child_tended(
    n0: Node,
    n1: Node,
    base: Base,
    i: int,
    c0: Node,
    c1: Node,
    lo: Option<Key>,
    hi: Option<Key>,
    list0: FreelistV,
    list1: FreelistV,
)
    requires
        n0.ok(base),
        !n0.is_leaf,
        n0.tree(base).wf(lo, hi, false),
        0 <= i < n0.inodes@.len(),
        n0.children@[i] == Some(Box::new(c0)),
        n1 == (Node { children: n1.children, ..n0 }),
        n1.children@ == n0.children@.update(i, Some(Box::new(c1))),
        c1.solid(),
        tended(
            c0,
            c1,
            base,
            kid_lo(n0.keys(), i, lo),
            kid_hi(n0.keys(), i, hi),
            list0,
            list1,
        ),
        sound(n0.tree(base), list0),
    ensures
        n1.ok(base),
        wf_but(n1.tree(base), lo, hi, i),
        c1.unbalanced == c0.unbalanced && c1.inodes@.len() == c0.inodes@.len() ==> n1.tree(base).wf(lo, hi, false),
        kept(n0.tree(base), n1.tree(base), list0, list1),
        sound(n1.tree(base), list1),
        flagged_in(n1.children@) + c0.flagged() == flagged_in(n0.children@) + c1.flagged(),
{
    reveal(Node::ok);
    reveal(Tree::wf_from);
    let t0 = n0.tree(base);
    let t1 = n1.tree(base);
    let k0 = t0->kids;
    assert(k0[i] == c0.tree(base));
    assert(c1.pgid == c0.pgid);
    lemma_replaced(n0, n1, base, i, c1);
    lemma_flagged_update(n0.children@, i, c1);
    lemma_cat_split(k0, i);
    lemma_cat_update(k0, i, c1.tree(base));
    assert(t1->kids == k0.update(i, c1.tree(base)));
    assert forall|j: int| 0 <= j < t1->kids.len() implies (#[trigger] t1->kids[j]).wf_from(
        kid_lo(t1->keys, j, lo),
        kid_hi(t1->keys, j, hi),
        false,
        if j == i { 1 } else { 2 },
    ) by {
        assert(k0[j].wf_from(kid_lo(t0->keys, j, lo), kid_hi(t0->keys, j, hi), false, 2));
    }
    assert forall|j: int| 0 <= j < t1->kids.len() implies (#[trigger] t1->kids[j]).height() == t1->kids[0].height() by {
        assert(k0[j].height() == k0[0].height());
        assert(k0[i].height() == k0[0].height());
    }
    assert forall|p: Pgid| #[trigger] t1.uses(p) + listed(list1, p) == t0.uses(p) + listed(list0, p) by {
        assert(kids_use(k0.update(i, c1.tree(base)), p) == kids_use(k0, p) - k0[i].uses(p) + c1.tree(base).uses(p));
        assert(c1.tree(base).uses(p) + listed(list1, p) == c0.tree(base).uses(p) + listed(list0, p));
    }
    assert forall|p: Pgid| #[trigger] t1.uses(p) + listed(list1, p) <= 1 by {
        assert(t0.uses(p) + listed(list0, p) <= 1);
    }
    if c1.unbalanced == c0.unbalanced && c1.inodes@.len() == c0.inodes@.len() {
        assert(k0[i].wf_from(kid_lo(t0->keys, i, lo), kid_hi(t0->keys, i, hi), false, 2));
        assert(c1.tree(base).wf_from(kid_lo(t0->keys, i, lo), kid_hi(t0->keys, i, hi), false, 2));
        assert forall|j: int| 0 <= j < t1->kids.len() implies (#[trigger] t1->kids[j]).wf_from(
            kid_lo(t1->keys, j, lo),
            kid_hi(t1->keys, j, hi),
            false,
            2,
        ) by {
        }
    }
}

/// A child of a sound tree is sound.
proof fn lemma_kid_sound(t: Tree, i: int, list: FreelistV)
    requires
        t is Branch,
        0 <= i < t->kids.len(),
        sound(t, list),
    ensures
        sound(t->kids[i], list),
{
    assert forall|p: Pgid| #[trigger] t->kids[i].uses(p) + listed(list, p) <= 1 by {
        lemma_kid_use(t, i, p);
        assert(t.uses(p) + listed(list, p) <= 1);
    }
}

/// Two steps of looking after children are one.
proof fn lemma_tended_twice(
    n0: Node,
    n1: Node,
    n2: Node,
    base: Base,
    lo: Option<Key>,
    hi: Option<Key>,
    a: FreelistV,
    b: FreelistV,
    c: FreelistV,
)
    requires
        n1 == (Node { children: n1.children, ..n0 }),
        kept(n0.tree(base), n1.tree(base), a, b),
        tended(n1, n2, base, lo, hi, b, c),
    ensures
        tended(n0, n2, base, lo, hi, a, c),
{
    assert forall|p: Pgid| #[trigger] n2.tree(base).uses(p) + listed(c, p) == n0.tree(base).uses(p) + listed(a, p) by {
        assert(n1.tree(base).uses(p) + listed(b, p) == n0.tree(base).uses(p) + listed(a, p));
    }
}

/// The first child in memory that is marked, or has a marked node below it.
fn first_marked(children: &Vec<Option<Box<Node>>>) -> (r: Option<usize>)
    ensures
        match r {
            Some(i) => i < children@.len() && child_flags(children@[i as int]) > 0 && flagged_in(children@) > 0,
            None => flagged_in(children@) == 0,
        },
    decreases children@,
{
    let mut i: usize = 0;
    assert(children@.take(0) =~= Seq::<Option<Box<Node>>>::empty());
    while i < children.len()
        invariant
            i <= children@.len(),
            flagged_in(children@.take(i as int)) == 0,
        decreases children@.len() - i,
    {
        if let Some(c) = &children[i] {
            if c.marked() {
                proof {
                    lemma_flagged_remove(children@, i as int);
                }
                return Some(i);
            }
        }
        proof {
            assert(children@.take(i + 1).drop_last() =~= children@.take(i as int));
            assert(children@.take(i + 1).last() == children@[i as int]);
            assert(child_flags(children@[i as int]) == 0);
        }
        i = i + 1;
    }
    assert(children@.take(i as int) =~= children@);
    None
}

impl Node {
    /// Whether this node or one below it is marked.
    pub fn marked(&self) -> (r: bool)
        ensures
            r == (self.flagged() > 0),
        decreases self,
    {
        if self.unbalanced {
            return true;
        }
        first_marked(&self.children).is_some()
    }

    /// Looks after one node below this branch from which something was deleted, and after those
    /// above it that become small by that.
    fn step(
        &mut self,
        merge_at: usize,
        pages: &Pages,
        fl: &mut Freelist,
        txid: Txid,
        Ghost(base): Ghost<Base>,
        Ghost(lo): Ghost<Option<Key>>,
        Ghost(hi): Ghost<Option<Key>>,
    )
        requires
            base.ok(),
            pages.backs(base),
            old(self).ok(base),
            !old(self).is_leaf,
            old(self).tree(base).wf(lo, hi, false),
            flagged_in(old(self).children@) > 0,
            old(fl).inv(),
            ledger(old(fl)@, base, txid),
            sound(old(self).tree(base), old(fl)@),
        ensures
            tends(*old(self), *final(self), base, merge_at as int),
            tended(*old(self), *final(self), base, lo, hi, old(fl)@, final(fl)@),
            flagged_in(final(self).children@) < flagged_in(old(self).children@),
            final(fl).inv(),
            ledger(final(fl)@, base, txid),
            since(old(fl)@, final(fl)@, txid),
            final(fl)@.free == old(fl)@.free,
        decreases old(self).tree(base), 1int,
    {
        proof {
            self.lemma_shape(base);
        }
        if let Some(i) = first_marked(&self.children) {
            self.step_child(i, merge_at, pages, fl, txid, Ghost(base), Ghost(lo), Ghost(hi));
        }
    }

    /// The same for what is below child `i` and for that child itself.
    fn step_child(
        &mut self,
        i: usize,
        merge_at: usize,
        pages: &Pages,
        fl: &mut Freelist,
        txid: Txid,
        Ghost(base): Ghost<Base>,
        Ghost(lo): Ghost<Option<Key>>,
        Ghost(hi): Ghost<Option<Key>>,
    )
        requires
            base.ok(),
            pages.backs(base),
            old(self).ok(base),
            !old(self).is_leaf,
            old(self).tree(base).wf(lo, hi, false),
            i < old(self).inodes@.len(),
            child_flags(old(self).children@[i as int]) > 0,
            old(fl).inv(),
            ledger(old(fl)@, base, txid),
            sound(old(self).tree(base), old(fl)@),
        ensures
            tends(*old(self), *final(self), base, merge_at as int),
            tended(*old(self), *final(self), base, lo, hi, old(fl)@, final(fl)@),
            flagged_in(final(self).children@) < flagged_in(old(self).children@),
            final(fl).inv(),
            ledger(final(fl)@, base, txid),
            since(old(fl)@, final(fl)@, txid),
            final(fl)@.free == old(fl)@.free,
        decreases old(self).tree(base), 0int,
    {
        let ghost n0 = *self;
        let ghost t0 = self.tree(base);
        let ghost list0 = fl@;
        proof {
            n0.lemma_child(base, i as int);
            lemma_wf_branch(t0, lo, hi, false, 2);
        }
        let mut child: Box<Node> = self.children[i].take().unwrap();
        let ghost c0 = *child;
        proof {
            assert(c0.tree(base) == t0->kids[i as int]);
            assert(t0->kids[i as int].wf_from(
                kid_lo(t0->keys, i as int, lo),
                kid_hi(t0->keys, i as int, hi),
                false,
                2,
            ));
            lemma_kid_sound(t0, i as int, list0);
            lemma_since_same(list0, txid);
            lemma_fewer(c0.tree(base), kid_lo(t0->keys, i as int, lo), kid_hi(t0->keys, i as int, hi));
        }
        let below: bool = !child.is_leaf && first_marked(&child.children).is_some();
        proof {
            c0.lemma_shape(base);
        }
        if below {
            child.step(
                merge_at,
                pages,
                fl,
                txid,
                Ghost(base),
                Ghost(kid_lo(t0->keys, i as int, lo)),
                Ghost(kid_hi(t0->keys, i as int, hi)),
            );
        }
        let ghost c1 = *child;
        let ghost list1 = fl@;
        let marked: bool = child.unbalanced;
        self.children.set(i, Some(child));
        let ghost n1 = *self;
        proof {
            assert(self.children@ =~= n0.children@.update(i as int, Some(Box::new(c1))));
            assert(tended(
                c0,
                c1,
                base,
                kid_lo(n0.keys(), i as int, lo),
                kid_hi(n0.keys(), i as int, hi),
                list0,
                list1,
            ));
            lemma_child_tended(n0, n1, base, i as int, c0, c1, lo, hi, list0, list1);
        }
        if marked {
            self.settle_child(i, merge_at, pages, fl, txid, Ghost(base), Ghost(lo), Ghost(hi));
            proof {
                lemma_tended_twice(n0, n1, *self, base, lo, hi, list0, list1, fl@);
                lemma_since(list0, list1, fl@, txid);
            }
        } else {
            proof {
                lemma_wf_one(n1.tree(base), lo, hi, false);
            }
        }
        proof {
            assert(*n1.children@[i as int]->0 == c1);
            assert(tends_at(n0, n1, *self, base, merge_at as int, i as int));
        }
    }
}

/// What rebalancing a whole bucket leaves as it was.
pub open spec fn rebalanced(before: Tree, after: Tree, list0: FreelistV, list1: FreelistV) -> bool {
    &&& after.items() == before.items()
    &&& after.pgid() == before.pgid()
    &&& after.over() == before.over()
    &&& forall|p: Pgid| #[trigger] after.uses(p) + listed(list1, p) == before.uses(p) + listed(list0, p)
}

/// A root with one child takes up what the child has.
proof fn lemma_collapse(n0: Node, n1: Node, base: Base, c: Node, list: FreelistV)
    requires
        base.ok(),
        n0.ok(base),
        !n0.is_leaf,
        n0.inodes@.len() == 1,
        n0.tree(base).wf_from(None, None, false, 1),
        c.ok(base),
        c.pgid == n0.inodes@[0].pgid,
        c.tree(base) == n0.kids(base)[0],
        c.flagged() == child_flags(n0.children@[0]),
        n1 == (Node { is_leaf: c.is_leaf, inodes: c.inodes, children: c.children, ..n0 }),
        !n1.unbalanced,
        sound(n0.tree(base), list),
    ensures
        n1.ok(base),
        n1.tree(base).wf(None, None, false),
        n1.tree(base).items() == n0.tree(base).items(),
        n1.tree(base).pgid() == n0.tree(base).pgid(),
        n1.tree(base).over() == n0.tree(base).over(),
        n1.flagged() <= n0.flagged(),
        base.old.contains(c.pgid),
        base.forest[c.pgid].over() == c.overflow,
        forall|p: Pgid| c.pgid <= p <= c.pgid + c.overflow ==> listed(list, p) == 0,
        forall|p: Pgid| #[trigger]
            n1.tree(base).uses(p) + (if c.pgid <= p <= c.pgid + c.overflow { 1nat } else { 0nat })
                == n0.tree(base).uses(p),
{
    reveal(Tree::wf_from);
    reveal(Node::ok);
    let t0 = n0.tree(base);
    let ct = c.tree(base);
    n0.lemma_child(base, 0);
    assert(t0->kids =~= seq![ct]);
    lemma_cat_one(ct);
    assert(ct.wf_from(kid_lo(t0->keys, 0, None), kid_hi(t0->keys, 0, None), false, 2));
    assert(n1.keys() =~= c.keys());
    assert(n1.kids(base) =~= c.kids(base));
    assert(base.page_ok(c.pgid));
    assert(n0.children@ =~= seq![n0.children@[0]]);
    lemma_flagged_remove(n0.children@, 0);
    assert forall|p: Pgid| c.pgid <= p <= c.pgid + c.overflow implies listed(list, p) == 0 by {
        lemma_kid_use(t0, 0, p);
        assert(t0.uses(p) + listed(list, p) <= 1);
    }
    assert forall|p: Pgid| #[trigger]
        n1.tree(base).uses(p) + (if c.pgid <= p <= c.pgid + c.overflow { 1nat } else { 0nat })
            == n0.tree(base).uses(p) by {
        assert(kids_use(seq![ct], p) == ct.uses(p));
    }
}

/// Two steps of rebalancing are one.
proof fn lemma_rebalanced_twice(t0: Tree, t1: Tree, t2: Tree, a: FreelistV, b: FreelistV, c: FreelistV)
    requires
        rebalanced(t0, t1, a, b),
        rebalanced(t1, t2, b, c),
        sound(t0, a),
    ensures
        rebalanced(t0, t2, a, c),
        sound(t2, c),
{
    assert forall|p: Pgid| #[trigger] t2.uses(p) + listed(c, p) == t0.uses(p) + listed(a, p) by {
        assert(t1.uses(p) + listed(b, p) == t0.uses(p) + listed(a, p));
    }
    assert forall|p: Pgid| #[trigger] t2.uses(p) + listed(c, p) <= 1 by {
        assert(t0.uses(p) + listed(a, p) <= 1);
    }
}

/// One more form of a root.
proof fn lemma_tending(path: Seq<Node>, n: Node, base: Base, merge_at: int)
    requires
        tending(path, base, merge_at),
        tends_root(path.last(), n, base, merge_at),
    ensures
        tending(path.push(n), base, merge_at),
        path.push(n)[0] == path[0],
        path.push(n).last() == n,
{
    let more = path.push(n);
    assert forall|k: int| 0 < k < more.len() implies tends_root(more[k - 1], #[trigger] more[k], base, merge_at) by {
        if k < path.len() {
            assert(more[k] == path[k]);
        }
    }
}

impl Node {
    /// Replaces a root that has only one child by that child.
    fn collapse(&mut self, pages: &Pages, fl: &mut Freelist, txid: Txid, Ghost(base): Ghost<Base>)
        requires
            base.ok(),
            pages.backs(base),
            old(self).ok(base),
            !old(self).is_leaf,
            old(self).inodes@.len() == 1,
            old(self).tree(base).wf_from(None, None, false, 1),
            !old(self).unbalanced,
            old(fl).inv(),
            ledger(old(fl)@, base, txid),
            sound(old(self).tree(base), old(fl)@),
        ensures
            collapses(*old(self), *final(self), base),
            final(self).ok(base),
            final(self).tree(base).wf(None, None, false),
            rebalanced(old(self).tree(base), final(self).tree(base), old(fl)@, final(fl)@),
            final(self).flagged() <= old(self).flagged(),
            final(fl).inv(),
            ledger(final(fl)@, base, txid),
            since(old(fl)@, final(fl)@, txid),
            final(fl)@.free == old(fl)@.free,
    {
        let ghost n0 = *self;
        let ghost list0 = fl@;
        proof {
            n0.lemma_child(base, 0);
        }
        let child: Box<Node> = self.take_child(0, pages, Ghost(base));
        let pgid: Pgid = child.pgid;
        let overflow: u32 = child.overflow;
        let ghost c0 = *child;
        let c: Node = *child;
        self.is_leaf = c.is_leaf;
        self.inodes = c.inodes;
        self.children = c.children;
        proof {
            lemma_collapse(n0, *self, base, c0, list0);
            assert(child_node(n0, base, 0, c0));
        }
        free_page(fl, txid, pgid, overflow, Ghost(base));
        proof {
            assert forall|p: Pgid| #[trigger]
                self.tree(base).uses(p) + listed(fl@, p) == n0.tree(base).uses(p) + listed(list0, p) by {
                assert(listed(fl@, p) == listed(list0, p) + (if pgid <= p <= pgid + overflow { 1nat } else { 0nat }));
            }
        }
    }

    /// Looks after everything below this root from which something was deleted.
    pub fn rebalance_node(&mut self, merge_at: usize, pages: &Pages, fl: &mut Freelist, txid: Txid, Ghost(base): Ghost<Base>)
        requires
            base.ok(),
            pages.backs(base),
            old(self).ok(base),
            old(self).tree(base).wf(None, None, false),
            old(fl).inv(),
            ledger(old(fl)@, base, txid),
            sound(old(self).tree(base), old(fl)@),
        ensures
            final(self).ok(base),
            final(self).tree(base).wf(None, None, false),
            rebalanced(old(self).tree(base), final(self).tree(base), old(fl)@, final(fl)@),
            rebalances(*old(self), *final(self), base, merge_at as int),
            old(self).flagged() == 0 ==> *final(self) == *old(self) && final(fl)@ == old(fl)@,
            final(self).flagged() == 0,
            final(fl).inv(),
            ledger(final(fl)@, base, txid),
            since(old(fl)@, final(fl)@, txid),
            final(fl)@.free == old(fl)@.free,
    {
        let ghost t0 = self.tree(base);
        let ghost list0 = fl@;
        let ghost mut path = seq![*self];
        proof {
            lemma_since_same(list0, txid);
            assert(tending(path, base, merge_at as int));
            assert(path.last() == *self);
        }
        if !self.marked() {
            return;
        }
        loop
            invariant
                base.ok(),
                pages.backs(base),
                self.ok(base),
                self.tree(base).wf(None, None, false),
                fl.inv(),
                ledger(fl@, base, txid),
                sound(self.tree(base), fl@),
                sound(t0, list0),
                rebalanced(t0, self.tree(base), list0, fl@),
                since(list0, fl@, txid),
                fl@.free == list0.free,
                t0 == old(self).tree(base),
                list0 == old(fl)@,
                tending(path, base, merge_at as int),
                path[0] == *old(self),
                path.last() == *self,
            ensures
                self.flagged() == 0,
            decreases self.flagged(),
        {
            let ghost n1 = *self;
            let ghost list1 = fl@;
            if self.is_leaf {
                self.unbalanced = false;
                proof {
                    n1.lemma_shape(base);
                    lemma_same_but_mark(n1, *self, base);
                    assert(flagged_in(self.children@) == 0);
                    lemma_tending(path, *self, base, merge_at as int);
                    path = path.push(*self);
                }
                break;
            }
            let below: bool = first_marked(&self.children).is_some();
            proof {
                lemma_since_same(list1, txid);
                lemma_fewer(n1.tree(base), None, None);
                n1.lemma_shape(base);
            }
            if below {
                self.step(merge_at, pages, fl, txid, Ghost(base), Ghost(None), Ghost(None));
            }
            let ghost n2 = *self;
            let ghost list2 = fl@;
            proof {
                lemma_rebalanced_twice(t0, n1.tree(base), n2.tree(base), list0, list1, list2);
                lemma_since(list0, list1, list2, txid);
            }
            let marked: bool = self.unbalanced;
            self.unbalanced = false;
            let ghost n3 = *self;
            proof {
                lemma_same_but_mark(n2, n3, base);
            }
            if marked && self.inodes.len() == 1 {
                self.collapse(pages, fl, txid, Ghost(base));
                proof {
                    lemma_rebalanced_twice(t0, n3.tree(base), self.tree(base), list0, list2, fl@);
                    lemma_since(list0, list2, fl@, txid);
                }
            } else {
                proof {
                    lemma_wf_branch(n1.tree(base), None, None, false, 2);
                    lemma_wf_two(n3.tree(base));
                }
            }
            proof {
                assert(tends_root_by(n1, n2, *self, base, merge_at as int));
                lemma_tending(path, *self, base, merge_at as int);
                path = path.push(*self);
            }
            if !below && !marked {
                break;
            }
        }
    }
}

/// A root with two children is one with at least two.
proof fn lemma_wf_two(t: Tree)
    requires
        t.wf_from(None, None, false, 1),
        t is Branch,
        t->keys.len() >= 2,
    ensures
        t.wf(None, None, false),
{
    reveal(Tree::wf_from);
}

/// Clearing the mark of a node changes nothing else, also where there was none.
proof fn lemma_same_but_mark(n0: Node, n1: Node, base: Base)
    requires
        n0.ok(base),
        n1 == (Node { unbalanced: false, ..n0 }),
    ensures
        n1.ok(base),
        n1.tree(base) == n0.tree(base),
{
    reveal(Node::ok);
    assert(n1.keys() =~= n0.keys());
    assert(n1.kids(base) =~= n0.kids(base));
}

} // verus!
