//! How much writing a bucket can add to the file.
use vstd::prelude::*;
use crate::inode::{data_len, page_len, InodeV};
use crate::node::{child_flags, Base, Node};
use crate::split::{lemma_split_pos, one_page, split_parts, split_pos};
use crate::tree::{cat, lemma_cat_split, lemma_wf_branch, Key, Tree};
use crate::writer::kids_of;

verus! {

/// The bytes that one row of pages with these elements takes at most: each element could get a
/// page of its own, which is rounded up.
pub open spec fn row_cost(items: Seq<InodeV>, page_size: int) -> int {
    data_len(items) + (32 + page_size) * items.len()
}

/// How often a number can be halved before it is one.
pub open spec fn levels(n: int) -> nat
    decreases n,
{
    if n <= 1 {
        0
    } else {
        1 + levels(n / 2)
    }
}

/// The bytes that the pages of a bucket with these elements take at most: there are no more rows
/// in memory, nor new ones above them, than the number of elements can be halved.
pub open spec fn root_cost(items: Seq<InodeV>, page_size: int) -> int {
    (1 + 2 * levels(items.len() as int)) * row_cost(items, page_size) + 16 + page_size
}

/// The bytes that some pages take, each rounded up.
pub open spec fn parts_cost(parts: Seq<Seq<InodeV>>, page_size: int) -> int
    decreases parts.len(),
{
    if parts.len() == 0 {
        0
    } else {
        parts_cost(parts.drop_last(), page_size) + page_len(parts.last()) + page_size
    }
}

pub proof fn lemma_data_add(a: Seq<InodeV>, b: Seq<InodeV>)
    ensures
        data_len(a + b) == data_len(a) + data_len(b),
    decreases b.len(),
{
    if b.len() == 0 {
        assert(a + b =~= a);
    } else {
        lemma_data_add(a, b.drop_last());
        assert((a + b).drop_last() =~= a + b.drop_last());
    }
}

pub proof fn lemma_row_cost_add(a: Seq<InodeV>, b: Seq<InodeV>, page_size: int)
    ensures
        row_cost(a + b, page_size) == row_cost(a, page_size) + row_cost(b, page_size),
{
    lemma_data_add(a, b);
    assert((32 + page_size) * (a.len() + b.len()) == (32 + page_size) * a.len() + (32 + page_size) * b.len())
        by (nonlinear_arith);
}

/// Fewer and smaller elements take no more.
pub proof fn lemma_row_cost_less(a: Seq<InodeV>, b: Seq<InodeV>, page_size: int)
    requires
        a.len() <= b.len(),
        data_len(a) <= data_len(b),
        page_size >= 0,
    ensures
        0 <= row_cost(a, page_size) <= row_cost(b, page_size),
{
    assert(0 <= (32 + page_size) * a.len() <= (32 + page_size) * b.len()) by (nonlinear_arith)
        requires
            a.len() <= b.len(),
            page_size >= 0,
    ;
}

proof fn lemma_parts_add(p: Seq<InodeV>, parts: Seq<Seq<InodeV>>, page_size: int)
    ensures
        parts_cost(seq![p] + parts, page_size) == page_len(p) + page_size + parts_cost(parts, page_size),
    decreases parts.len(),
{
    let s = seq![p] + parts;
    if parts.len() == 0 {
        assert(s.drop_last() =~= Seq::<Seq<InodeV>>::empty());
        assert(s.last() == p);
        assert(parts_cost(Seq::<Seq<InodeV>>::empty(), page_size) == 0);
    } else {
        assert(s.last() == parts.last());
        lemma_parts_add(p, parts.drop_last(), page_size);
        assert(s.drop_last() =~= seq![p] + parts.drop_last());
    }
}

/// The parts that elements are split into take no more than the elements can.
pub proof fn lemma_parts_cost(items: Seq<InodeV>, page_size: int, threshold: int)
    requires
        items.len() > 0,
        page_size >= 0,
        0 <= threshold,
    ensures
        parts_cost(split_parts(items, page_size, threshold), page_size) <= row_cost(items, page_size),
    decreases items.len(),
{
    let parts = split_parts(items, page_size, threshold);
    let n = items.len() as int;
    if one_page(items, page_size) {
        assert(parts == seq![items] + Seq::<Seq<InodeV>>::empty()) by {
            assert(parts =~= seq![items] + Seq::<Seq<InodeV>>::empty());
        }
        lemma_parts_add(items, Seq::empty(), page_size);
        assert(16 + 16 * n + page_size <= (32 + page_size) * n) by (nonlinear_arith)
            requires
                n >= 1,
                page_size >= 0,
        ;
    } else {
        lemma_split_pos(items, threshold);
        let i = split_pos(items, threshold);
        let a = items.take(i);
        let b = items.skip(i);
        lemma_parts_cost(b, page_size, threshold);
        lemma_parts_add(a, split_parts(b, page_size, threshold), page_size);
        assert(items =~= a + b);
        lemma_row_cost_add(a, b, page_size);
        assert(16 + 16 * i + page_size <= (32 + page_size) * i) by (nonlinear_arith)
            requires
                i >= 1,
                page_size >= 0,
        ;
    }
}

/// The first parts take no more than all.
pub proof fn lemma_parts_take(parts: Seq<Seq<InodeV>>, i: int, page_size: int)
    requires
        0 <= i < parts.len(),
        page_size >= 0,
    ensures
        parts_cost(parts.take(i + 1), page_size) == parts_cost(parts.take(i), page_size) + page_len(parts[i]) + page_size,
        parts_cost(parts.take(i + 1), page_size) <= parts_cost(parts, page_size),
    decreases parts.len() - i,
{
    assert(parts.take(i + 1).drop_last() =~= parts.take(i));
    if i + 1 < parts.len() {
        lemma_parts_take(parts, i + 1, page_size);
    } else {
        assert(parts.take(i + 1) =~= parts);
    }
}

/// More can be halved as often.
pub proof fn lemma_levels(a: int, b: int)
    requires
        a <= b,
    ensures
        levels(a) <= levels(b),
    decreases b,
{
    if a > 1 {
        lemma_levels(a / 2, b / 2);
    }
}

/// Two trees of a height make one that is higher by one.
proof fn lemma_levels_two(h: nat, a: int, b: int, n: int)
    requires
        h <= levels(a),
        h <= levels(b),
        1 <= a,
        1 <= b,
        a + b <= n,
    ensures
        h + 1 <= levels(n),
{
    if a <= b {
        lemma_levels(a, n / 2);
    } else {
        lemma_levels(b, n / 2);
    }
}

/// A tree on pages has no more rows than its elements can be halved, and begins with the first key
/// on its page.
pub proof fn lemma_page_levels(base: Base, t: Tree, lo: Option<Key>, hi: Option<Key>, tight: bool)
    requires
        base.ok(),
        base.forest.contains_key(t.pgid()),
        base.forest[t.pgid()] == t,
        t.wf(lo, hi, tight),
        t.first_key() is Some,
    ensures
        t.items().len() > 0,
        t.items()[0].key == t.first_key()->0,
        t.height() <= levels(t.items().len() as int),
    decreases t,
{
    assert(base.page_ok(t.pgid()));
    if let Tree::Branch { keys, kids, .. } = t {
        lemma_wf_branch(t, lo, hi, tight, 2);
        assert(kids[0].height() == kids[1].height()) by {
            reveal(Tree::wf_from);
        }
        let p = crate::inode::decode(base.store[t.pgid()])[0].pgid;
        let q = crate::inode::decode(base.store[t.pgid()])[1].pgid;
        assert(kids[0] == base.forest[p] && kids[0].first_key() == Some(keys[0]));
        assert(kids[1] == base.forest[q] && kids[1].first_key() == Some(keys[1]));
        assert(base.page_ok(p) && base.page_ok(q));
        lemma_page_levels(
            base,
            kids[0],
            crate::tree::kid_lo(keys, 0, lo),
            crate::tree::kid_hi(keys, 0, hi),
            tight,
        );
        lemma_page_levels(
            base,
            kids[1],
            crate::tree::kid_lo(keys, 1, lo),
            crate::tree::kid_hi(keys, 1, hi),
            tight,
        );
        lemma_two_kids(kids);
        lemma_levels_two(
            kids[0].height(),
            kids[0].items().len() as int,
            kids[1].items().len() as int,
            t.items().len() as int,
        );
    }
}

proof fn lemma_two_kids(kids: Seq<Tree>)
    requires
        kids.len() >= 2,
    ensures
        cat(kids).len() >= kids[0].items().len() + kids[1].items().len(),
        kids[0].items().len() > 0 ==> cat(kids)[0] == kids[0].items()[0],
{
    lemma_cat_split(kids, 0);
    assert(kids.take(0) =~= Seq::<Tree>::empty());
    lemma_cat_split(kids.skip(1), 0);
    assert(kids.skip(1).take(0) =~= Seq::<Tree>::empty());
}

/// A node with all that is below it has no more rows than its elements can be halved.
pub proof fn lemma_node_levels(n: Node, base: Base, lo: Option<Key>, hi: Option<Key>)
    requires
        base.ok(),
        n.ok(base),
        n.solid(),
        n.flagged() == 0,
        n.tree(base).wf(lo, hi, false),
    ensures
        n.tree(base).items().len() > 0,
        n.tree(base).height() <= levels(n.tree(base).items().len() as int),
    decreases n,
{
    let t = n.tree(base);
    n.lemma_shape(base);
    if !n.is_leaf {
        let kids = t->kids;
        lemma_wf_branch(t, lo, hi, false, 2);
        assert(kids[0].height() == kids[1].height()) by {
            reveal(Tree::wf_from);
        }
        lemma_child_levels(n, base, 0, lo, hi);
        lemma_child_levels(n, base, 1, lo, hi);
        lemma_two_kids(kids);
        lemma_levels_two(
            kids[0].height(),
            kids[0].items().len() as int,
            kids[1].items().len() as int,
            t.items().len() as int,
        );
    }
}

proof fn lemma_child_levels(n: Node, base: Base, i: int, lo: Option<Key>, hi: Option<Key>)
    requires
        base.ok(),
        n.ok(base),
        !n.is_leaf,
        n.flagged() == 0,
        n.tree(base).wf(lo, hi, false),
        0 <= i < n.inodes@.len(),
    ensures
        n.tree(base)->kids[i].items().len() > 0,
        n.tree(base)->kids[i].height() <= levels(n.tree(base)->kids[i].items().len() as int),
    decreases n.children@,
{
    let t = n.tree(base);
    n.lemma_child(base, i);
    n.lemma_shape(base);
    lemma_wf_branch(t, lo, hi, false, 2);
    let lo1 = crate::tree::kid_lo(t->keys, i, lo);
    let hi1 = crate::tree::kid_hi(t->keys, i, hi);
    assert(t->kids[i].wf(lo1, hi1, false));
    match n.children@[i] {
        Some(c) => {
            crate::balance::lemma_flagged_remove(n.children@, i);
            assert(child_flags(n.children@[i]) == c.flagged());
            lemma_node_levels(*c, base, lo1, hi1);
        },
        None => {
            assert(base.page_ok(n.inodes@[i].pgid));
            lemma_page_levels(base, t->kids[i], lo1, hi1, false);
        },
    }
}

/// The entries of a row are no more, and no larger, than the elements below it.
pub proof fn lemma_entries_cost(b: Base, v: Seq<InodeV>)
    requires
        forall|i: int|
            0 <= i < v.len() ==> {
                &&& (#[trigger] v[i]).value.len() == 0
                &&& b.forest[v[i].pgid].items().len() > 0
                &&& b.forest[v[i].pgid].items()[0].key == v[i].key
            },
    ensures
        v.len() <= cat(kids_of(b, v)).len(),
        data_len(v) <= data_len(cat(kids_of(b, v))),
    decreases v.len(),
{
    if v.len() > 0 {
        let u = v.drop_last();
        let kids = kids_of(b, v);
        assert forall|i: int| 0 <= i < u.len() implies {
            &&& (#[trigger] u[i]).value.len() == 0
            &&& b.forest[u[i].pgid].items().len() > 0
            &&& b.forest[u[i].pgid].items()[0].key == u[i].key
        } by {
            assert(u[i] == v[i]);
        }
        lemma_entries_cost(b, u);
        assert(kids.drop_last() =~= kids_of(b, u));
        let last = v[v.len() - 1];
        assert(v.last() == last);
        let items = kids.last().items();
        lemma_data_add(cat(kids_of(b, u)), items);
        lemma_data_add(items.take(1), items.skip(1));
        assert(items =~= items.take(1) + items.skip(1));
        assert(items.take(1).drop_last() =~= Seq::<InodeV>::empty());
        assert(items.take(1).last() == items[0]);
    }
}

} // verus!
