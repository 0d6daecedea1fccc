//! On which pages the nodes of a bucket are laid out.
use vstd::prelude::*;
use crate::inode::{decode, page_len, views, InodeV};
use crate::node::{Base, Node};
use crate::page::Pgid;
use crate::split::{lemma_split_full, split_parts};
use crate::writer::{extends, lemma_pages_for, page_holds};

verus! {

/// The pages of the entries `v` hold the parts that `items` are split into, one each. An entry has
/// the first key of its page.
pub open spec fn laid_row(b: Base, is_leaf: bool, items: Seq<InodeV>, v: Seq<InodeV>, split_at: int) -> bool {
    let parts = split_parts(items, b.page_size, split_at);
    &&& v.len() == parts.len()
    &&& forall|i: int|
        0 <= i < v.len() ==> {
            &&& page_holds(b, is_leaf, (#[trigger] v[i]).pgid, parts[i])
            &&& parts[i].len() > 0 ==> v[i].key == parts[i][0].key
        }
}

/// The pages of the entries `v` hold what node `n` holds. A child in memory has pages of its own,
/// whose entries take the place of its entry; one that is not stays on its page.
pub open spec fn laid_node(b: Base, n: Node, v: Seq<InodeV>, split_at: int) -> bool
    decreases n,
{
    if n.is_leaf {
        laid_row(b, true, views(n.inodes@), v, split_at)
    } else {
        exists|ev: Seq<InodeV>|
            #![trigger laid_row(b, false, ev, v, split_at)]
            laid_children(b, n.children@, views(n.inodes@), ev, split_at) && laid_row(b, false, ev, v, split_at)
    }
}

/// The entries `ev` are those of the children of a branch with the entries `inodes`.
pub open spec fn laid_children(
    b: Base,
    children: Seq<Option<Box<Node>>>,
    inodes: Seq<InodeV>,
    ev: Seq<InodeV>,
    split_at: int,
) -> bool
    decreases children,
{
    if children.len() == 0 {
        ev.len() == 0
    } else {
        exists|k: int|
            #![trigger ev.take(k)]
            0 <= k <= ev.len() && laid_children(b, children.drop_last(), inodes.drop_last(), ev.take(k), split_at)
                && laid_child(b, children.last(), inodes.last(), ev.skip(k), split_at)
    }
}

/// The entries `ev` are those of one child of a branch.
pub open spec fn laid_child(b: Base, child: Option<Box<Node>>, inode: InodeV, ev: Seq<InodeV>, split_at: int) -> bool
    decreases child,
{
    match child {
        Some(c) => laid_node(b, *c, ev, split_at),
        None => ev == seq![inode],
    }
}

/// The entries `v` are those of the row that stands `up` rows above that of node `n`: as long as
/// there is more than one entry, branches are written over them.
pub open spec fn laid_above(b: Base, n: Node, v: Seq<InodeV>, split_at: int, up: nat) -> bool
    decreases up,
{
    if up == 0 {
        laid_node(b, n, v, split_at)
    } else {
        exists|ev: Seq<InodeV>|
            #![trigger laid_row(b, false, ev, v, split_at)]
            ev.len() > 1 && laid_above(b, n, ev, split_at, (up - 1) as nat) && laid_row(b, false, ev, v, split_at)
    }
}

/// Page `pgid` is the root over the pages of root node `n`.
pub open spec fn laid_root(b: Base, n: Node, pgid: Pgid, split_at: int) -> bool {
    exists|v: Seq<InodeV>, up: nat| #[trigger]
        laid_above(b, n, v, split_at, up) && v.len() == 1 && v[0].pgid == pgid
}

proof fn lemma_row_stays(a: Base, b: Base, is_leaf: bool, items: Seq<InodeV>, v: Seq<InodeV>, split_at: int)
    requires
        extends(a, b),
        laid_row(a, is_leaf, items, v, split_at),
    ensures
        laid_row(b, is_leaf, items, v, split_at),
{
    let parts = split_parts(items, b.page_size, split_at);
    assert forall|i: int| 0 <= i < v.len() implies {
        &&& page_holds(b, is_leaf, (#[trigger] v[i]).pgid, parts[i])
        &&& parts[i].len() > 0 ==> v[i].key == parts[i][0].key
    } by {
        assert(page_holds(a, is_leaf, v[i].pgid, parts[i]));
    }
}

/// A node stays laid out when there are more pages.
proof fn lemma_node_stays(a: Base, b: Base, n: Node, v: Seq<InodeV>, split_at: int)
    requires
        extends(a, b),
        laid_node(a, n, v, split_at),
    ensures
        laid_node(b, n, v, split_at),
    decreases n,
{
    if n.is_leaf {
        lemma_row_stays(a, b, true, views(n.inodes@), v, split_at);
    } else {
        let ev = choose|ev: Seq<InodeV>|
            #![trigger laid_row(a, false, ev, v, split_at)]
            laid_children(a, n.children@, views(n.inodes@), ev, split_at) && laid_row(a, false, ev, v, split_at);
        lemma_row_stays(a, b, false, ev, v, split_at);
        lemma_children_stay(a, b, n.children@, views(n.inodes@), ev, split_at);
    }
}

pub proof fn lemma_children_stay(
    a: Base,
    b: Base,
    children: Seq<Option<Box<Node>>>,
    inodes: Seq<InodeV>,
    ev: Seq<InodeV>,
    split_at: int,
)
    requires
        extends(a, b),
        laid_children(a, children, inodes, ev, split_at),
    ensures
        laid_children(b, children, inodes, ev, split_at),
    decreases children,
{
    if children.len() > 0 {
        let k = choose|k: int|
            #![trigger ev.take(k)]
            0 <= k <= ev.len() && laid_children(a, children.drop_last(), inodes.drop_last(), ev.take(k), split_at)
                && laid_child(a, children.last(), inodes.last(), ev.skip(k), split_at);
        lemma_children_stay(a, b, children.drop_last(), inodes.drop_last(), ev.take(k), split_at);
        match children.last() {
            Some(c) => {
                lemma_node_stays(a, b, *c, ev.skip(k), split_at);
            },
            None => {},
        }
        assert(laid_child(b, children.last(), inodes.last(), ev.skip(k), split_at));
    }
}

/// One more child is laid out.
pub proof fn lemma_laid_more(
    a: Base,
    b: Base,
    children: Seq<Option<Box<Node>>>,
    inodes: Seq<InodeV>,
    i: int,
    ev: Seq<InodeV>,
    more: Seq<InodeV>,
    split_at: int,
)
    requires
        0 <= i < children.len(),
        inodes.len() == children.len(),
        extends(a, b),
        laid_children(a, children.take(i), inodes.take(i), ev, split_at),
        laid_child(b, children[i], inodes[i], more, split_at),
    ensures
        laid_children(b, children.take(i + 1), inodes.take(i + 1), ev + more, split_at),
{
    let k = ev.len() as int;
    let all = ev + more;
    lemma_children_stay(a, b, children.take(i), inodes.take(i), ev, split_at);
    assert(children.take(i + 1).drop_last() =~= children.take(i));
    assert(inodes.take(i + 1).drop_last() =~= inodes.take(i));
    assert(all.take(k) =~= ev);
    assert(all.skip(k) =~= more);
}

/// Branches over a row are the row above it.
pub proof fn lemma_laid_up(a: Base, b: Base, n: Node, ev: Seq<InodeV>, v: Seq<InodeV>, split_at: int, up: nat)
    requires
        extends(a, b),
        laid_above(a, n, ev, split_at, up),
        ev.len() > 1,
        laid_row(b, false, ev, v, split_at),
    ensures
        laid_above(b, n, v, split_at, up + 1),
{
    lemma_above_stays(a, b, n, ev, split_at, up);
}

proof fn lemma_above_stays(a: Base, b: Base, n: Node, v: Seq<InodeV>, split_at: int, up: nat)
    requires
        extends(a, b),
        laid_above(a, n, v, split_at, up),
    ensures
        laid_above(b, n, v, split_at, up),
    decreases up,
{
    if up == 0 {
        lemma_node_stays(a, b, n, v, split_at);
    } else {
        let ev = choose|ev: Seq<InodeV>|
            #![trigger laid_row(a, false, ev, v, split_at)]
            ev.len() > 1 && laid_above(a, n, ev, split_at, (up - 1) as nat) && laid_row(a, false, ev, v, split_at);
        lemma_above_stays(a, b, n, ev, split_at, (up - 1) as nat);
        lemma_row_stays(a, b, false, ev, v, split_at);
    }
}

/// How the pages of a row are filled: together they hold its elements; each but the last holds two or
/// more, more than two only within `split_at` bytes, and has no room there for the first element of the
/// next one, unless only two would be left for the last; and none is longer than its elements need.
pub proof fn lemma_row_filled(b: Base, is_leaf: bool, items: Seq<InodeV>, v: Seq<InodeV>, split_at: int, j: int)
    requires
        laid_row(b, is_leaf, items, v, split_at),
        0 <= split_at <= b.page_size,
        b.page_size > 0,
        0 <= j < v.len(),
    ensures
        ({
            let n = v.len() - 1;
            let page = decode(b.store[v[j].pgid]);
            let next = decode(b.store[v[j + 1].pgid]);
            &&& Seq::new(v.len(), |k: int| decode(b.store[v[k].pgid])).flatten() == items
            &&& b.forest[v[j].pgid] is Leaf == is_leaf
            &&& b.forest[v[j].pgid].over() * b.page_size < page_len(page) <= (b.forest[v[j].pgid].over() + 1) * b.page_size
            &&& n == 0 <==> items.len() <= 4 || page_len(items) < b.page_size
            &&& j == n ==> page.len() <= 4 || page_len(page) < b.page_size
            &&& j < n ==> {
                &&& page.len() >= 2
                &&& page[0].key == v[j].key
                &&& page.len() > 2 ==> page_len(page) <= split_at
                &&& page_len(page.push(next[0])) > split_at || j == n - 1 && next.len() == 3
            }
        }),
{
    let parts = split_parts(items, b.page_size, split_at);
    let held = Seq::new(v.len(), |k: int| decode(b.store[v[k].pgid]));
    assert forall|k: int| 0 <= k < v.len() implies held[k] == parts[k] by {
        assert(page_holds(b, is_leaf, v[k].pgid, parts[k]));
    }
    assert(held =~= parts);
    lemma_split_full(items, b.page_size, split_at, j);
    assert(page_holds(b, is_leaf, v[j].pgid, parts[j]));
    lemma_pages_for(page_len(parts[j]), b.page_size);
    if j + 1 < v.len() {
        assert(page_holds(b, is_leaf, v[j + 1].pgid, parts[j + 1]));
    }
}

} // verus!
