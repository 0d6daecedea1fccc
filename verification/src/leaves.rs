//! The elements of a bucket leaf by leaf.
use vstd::prelude::*;
use crate::inode::{branch_pgid, decode, elem_ok, InodeV};
use crate::node::{Base, Pages};
use crate::page::{PageHeader, Pgid};
use crate::path::{lemma_ordinal, on_disk, on_path, ordinal, ElemRef};
use crate::search::page_route;
use crate::tree::{alike, cat, cat_leaves, in_order, kid_hi, kid_lo, lemma_cat_split, lemma_pos_within, lemma_route, lemma_wf_branch, lemma_wf_items, lemma_wf_one, pos, routes, Key, Tree};
use crate::writer::keys_of;

verus! {

/// The elements of each leaf.
pub open spec fn lists_of(leaves: Seq<Tree>) -> Seq<Seq<InodeV>> {
    Seq::new(leaves.len(), |i: int| leaves[i].items())
}

/// The elements of each leaf of a tree.
pub open spec fn lists(t: Tree) -> Seq<Seq<InodeV>> {
    lists_of(t.leaves())
}

/// All elements of a row of lists.
pub open spec fn flat(l: Seq<Seq<InodeV>>) -> Seq<InodeV>
    decreases l.len(),
{
    if l.len() == 0 {
        Seq::empty()
    } else {
        flat(l.drop_last()) + l.last()
    }
}

/// Two rows one after the other.
pub proof fn lemma_flat_add(a: Seq<Seq<InodeV>>, b: Seq<Seq<InodeV>>)
    ensures
        flat(a + b) == flat(a) + flat(b),
    decreases b.len(),
{
    if b.len() == 0 {
        assert(a + b =~= a);
        assert(flat(a) + flat(b) =~= flat(a));
    } else {
        lemma_flat_add(a, b.drop_last());
        assert((a + b).drop_last() =~= a + b.drop_last());
        assert(flat(a + b) =~= flat(a) + flat(b));
    }
}

/// A row split at one of its lists.
pub proof fn lemma_flat_split(l: Seq<Seq<InodeV>>, i: int)
    requires
        0 <= i < l.len(),
    ensures
        flat(l) == flat(l.take(i)) + l[i] + flat(l.skip(i + 1)),
        flat(l.take(i + 1)) == flat(l.take(i)) + l[i],
{
    let m = seq![l[i]];
    assert(l =~= l.take(i) + m + l.skip(i + 1));
    lemma_flat_add(l.take(i) + m, l.skip(i + 1));
    lemma_flat_add(l.take(i), m);
    assert(m.drop_last() =~= Seq::<Seq<InodeV>>::empty());
    assert(flat(m.drop_last()) == Seq::<InodeV>::empty());
    assert(flat(m) =~= l[i]);
    assert(l.take(i + 1) =~= l.take(i) + m);
}

/// The leaves hold all elements.
pub proof fn lemma_flat(t: Tree)
    ensures
        flat(lists(t)) == t.items(),
    decreases t,
{
    match t {
        Tree::Leaf { items, .. } => {
            let l = lists(t);
            assert(l.drop_last() =~= Seq::<Seq<InodeV>>::empty());
            assert(flat(l.drop_last()) == Seq::<InodeV>::empty());
            assert(l.last() == items);
            assert(flat(l) =~= items);
        },
        Tree::Branch { kids, .. } => {
            lemma_flat_kids(kids);
        },
    }
}

/// The same for a list of children.
pub proof fn lemma_flat_kids(kids: Seq<Tree>)
    ensures
        flat(lists_of(cat_leaves(kids))) == cat(kids),
    decreases kids,
{
    if kids.len() == 0 {
        assert(lists_of(cat_leaves(kids)) =~= Seq::<Seq<InodeV>>::empty());
    } else {
        let a = cat_leaves(kids.drop_last());
        let b = kids.last().leaves();
        lemma_flat_kids(kids.drop_last());
        lemma_flat(kids.last());
        assert(lists_of(a + b) =~= lists_of(a) + lists_of(b));
        lemma_flat_add(lists_of(a), lists_of(b));
    }
}

/// A path that takes the way of a key.
pub open spec fn routed(t: Tree, key: Key, s: Seq<ElemRef>, k: int) -> bool
    decreases t,
{
    match t {
        Tree::Leaf { .. } => true,
        Tree::Branch { keys, kids, .. } => {
            &&& 0 <= s[k].index < kids.len()
            &&& routes(keys, key, s[k].index as int)
            &&& routed(kids[s[k].index as int], key, s, k + 1)
        },
    }
}

/// The way of a key is the same in a tree with the same branches.
pub proof fn lemma_routed_alike(t: Tree, u: Tree, key: Key, s: Seq<ElemRef>, k: int)
    requires
        alike(t, u),
        routed(t, key, s, k),
    ensures
        routed(u, key, s, k),
    decreases t,
{
    match (t, u) {
        (Tree::Leaf { .. }, Tree::Leaf { .. }) => {},
        (Tree::Branch { kids: x, .. }, Tree::Branch { kids: y, .. }) => {
            let i = s[k].index as int;
            assert(alike(x[i], y[i]));
            lemma_routed_alike(x[i], y[i], key, s, k + 1);
        },
        _ => {},
    }
}

/// Only the elements on branches matter for the way of a key.
pub proof fn lemma_routed_same(t: Tree, key: Key, a: Seq<ElemRef>, b: Seq<ElemRef>, k: int)
    requires
        on_path(t, a, k),
        routed(t, key, a, k),
        a.len() == b.len(),
        forall|i: int| k <= i < a.len() - 1 ==> (#[trigger] a[i]).index == b[i].index,
    ensures
        routed(t, key, b, k),
    decreases t,
{
    match t {
        Tree::Leaf { .. } => {},
        Tree::Branch { kids, .. } => {
            assert(a[k].index == b[k].index);
            lemma_routed_same(kids[a[k].index as int], key, a, b, k + 1);
        },
    }
}

/// The place of a key among all elements is its place in the leaf that its way leads to.
pub proof fn lemma_routed(t: Tree, lo: Option<Key>, hi: Option<Key>, tight: bool, key: Key, s: Seq<ElemRef>, k: int)
    requires
        t.wf(lo, hi, tight),
        on_path(t, s, k),
        routed(t, key, s, k),
    ensures
        0 <= ordinal(t, s, k) < lists(t).len(),
        in_order(lists(t)[ordinal(t, s, k)]),
        pos(t.items(), key) == flat(lists(t).take(ordinal(t, s, k))).len() + pos(lists(t)[ordinal(t, s, k)], key),
        0 <= pos(lists(t)[ordinal(t, s, k)], key) <= lists(t)[ordinal(t, s, k)].len(),
    decreases t,
{
    lemma_wf_one(t, lo, hi, tight);
    lemma_wf_items(t, lo, hi, tight);
    lemma_ordinal(t, s, k);
    match t {
        Tree::Leaf { items, .. } => {
            assert(lists(t)[0] == items);
            assert(lists(t).take(0) =~= Seq::<Seq<InodeV>>::empty());
            crate::tree::lemma_pos(items, key);
        },
        Tree::Branch { keys, kids, .. } => {
            let i = s[k].index as int;
            lemma_wf_branch(t, lo, hi, tight, 2);
            lemma_route(t, lo, hi, tight, key, i);
            lemma_pos_within(cat(kids.take(i)), kids[i].items(), cat(kids.skip(i + 1)), key);
            lemma_routed(kids[i], kid_lo(keys, i, lo), kid_hi(keys, i, hi), tight, key, s, k + 1);
            lemma_cat_split(kids, i);
            let a = cat_leaves(kids.take(i));
            let o = ordinal(kids[i], s, k + 1);
            lemma_flat_kids(kids.take(i));
            assert(lists(t).take(a.len() + o) =~= lists_of(a) + lists(kids[i]).take(o));
            lemma_flat_add(lists_of(a), lists(kids[i]).take(o));
            assert(lists(t)[a.len() + o] == lists(kids[i])[o]);
        },
    }
}

/// Goes down from a page on the way of a key.
pub fn seek_path(
    pages: &Pages,
    pgid: Pgid,
    key: &[u8],
    stack: &mut Vec<ElemRef>,
    Ghost(base): Ghost<Base>,
    Ghost(lo): Ghost<Option<Key>>,
    Ghost(hi): Ghost<Option<Key>>,
    Ghost(tight): Ghost<bool>,
)
    requires
        on_disk(*pages, base, pgid),
        base.forest[pgid].wf(lo, hi, tight),
    ensures
        final(stack)@.len() > old(stack)@.len(),
        final(stack)@.take(old(stack)@.len() as int) == old(stack)@,
        on_path(base.forest[pgid], final(stack)@, old(stack)@.len() as int),
        routed(base.forest[pgid], key@, final(stack)@, old(stack)@.len() as int),
        !final(stack)@.last().in_memory,
    decreases base.forest[pgid],
{
    let ghost t = base.forest[pgid];
    let ghost s0 = stack@;
    let ghost k = stack@.len() as int;
    assert(base.page_ok(pgid));
    let page: &[u8] = pages.page(pgid);
    let hdr = PageHeader::read(page);
    if hdr.is_leaf() {
        stack.push(ElemRef { pgid, index: 0, in_memory: false });
        assert(stack@.take(k) =~= s0);
        return;
    }
    let ghost kids = t->kids;
    proof {
        lemma_wf_branch(t, lo, hi, tight, 2);
        assert(keys_of(decode(page@)) =~= t->keys);
    }
    let index: usize = page_route(page, key);
    assert(elem_ok(page@, index as int));
    let child: Pgid = branch_pgid(page, index);
    proof {
        assert(kids[index as int] == base.forest[decode(page@)[index as int].pgid]);
        assert(base.kids_old(pgid));
        assert(base.page_ok(decode(page@)[index as int].pgid));
        assert(base.old.contains(kids[index as int].pgid()));
        assert(decreases_to!(t => t->kids));
    }
    stack.push(ElemRef { pgid, index, in_memory: false });
    let ghost s1 = stack@;
    seek_path(
        pages,
        child,
        key,
        stack,
        Ghost(base),
        Ghost(kid_lo(t->keys, index as int, lo)),
        Ghost(kid_hi(t->keys, index as int, hi)),
        Ghost(tight),
    );
    proof {
        let s = stack@;
        assert(s.take(k) =~= s0) by {
            assert forall|i: int| 0 <= i < k implies s[i] == s0[i] by {
                assert(s.take(k + 1)[i] == s1[i]);
            }
        }
        assert(s[k] == s1[k]) by {
            assert(s.take(k + 1)[k] == s1[k]);
        }
    }
}

} // verus!
