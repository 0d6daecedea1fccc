//! Spilling: the nodes of a bucket are written to new pages, split where they are too large.
use vstd::prelude::*;
use crate::budget::{lemma_entries_cost, lemma_levels, lemma_node_levels, lemma_page_levels, lemma_parts_cost, lemma_parts_take, lemma_row_cost_add, lemma_row_cost_less, levels, parts_cost, root_cost, row_cost};
use crate::error::Result;
use crate::freelist::{Freelist, FreelistV};
use crate::inode::{data_len, lemma_storable, page_len, storable, views, Inode, InodeV};
use crate::layout::{laid_above, laid_children, laid_node, laid_root, laid_row, lemma_children_stay, lemma_laid_more, lemma_laid_up};
use crate::ledger::{free_page, ledger, lemma_since, lemma_since_same, listed, since};
use crate::node::{child_flags, flagged_in, Base, Node};
use crate::order::{group_order, less, less_eq};
use crate::page::Pgid;
use crate::pieces::{blank, blanks, children_pieces, children_row, grew_by, halted, halted_at, heads, lemma_blank_parts, lemma_first_children, lemma_grew_more, lemma_grew_none, lemma_halted_later, lemma_heads, lemma_leaf_heads, lemma_next_child, lemma_same_sizes, node_pieces, node_row, rising, root_pieces};
use crate::row::{lemma_row_add, lemma_row_branch, lemma_row_leaf, lemma_row_one, lemma_row_split, lemma_tighten, lemma_untie, row_wf};
use crate::split::{lemma_split_parts, lemma_split_pos, one_page, split_node, split_parts, split_pos};
use crate::tree::{cat, in_order, key_ok, kid_hi, kid_lo, kids_use, lemma_cat_add, lemma_cat_one, lemma_cat_split, lemma_wf_branch, lemma_wf_items, lemma_wf_one, Key, Tree};
use crate::writer::{entries_ok, extends, in_limit, keys_of, kids_of, lemma_item_grows, lemma_stuck_below, lemma_stuck_on, new_tree, page_holds, page_size_ok, pages_for, spare, stuck, stuck_at, within_limit, Writer};

verus! {

/// A few elements can be stored on one page, and the machine can cope with it.
pub open spec fn few_fit(items: Seq<InodeV>, page_size: int) -> bool {
    storable(items) && page_len(items) + page_size <= usize::MAX
}

/// Four neighbouring elements can always be stored on one page. Only very large pages could have
/// room for more elements than a page can count.
pub open spec fn fits(items: Seq<InodeV>, page_size: int) -> bool {
    &&& forall|i: int, j: int|
        0 <= i <= j <= items.len() && j - i <= 4 ==> few_fit(#[trigger] items.subrange(i, j), page_size)
    &&& page_size <= 0x10_0000 || items.len() < 0xFFFF
}

/// A part of a list that fits does so too.
pub proof fn lemma_fits_part(items: Seq<InodeV>, page_size: int, a: int, b: int)
    requires
        fits(items, page_size),
        0 <= a <= b <= items.len(),
    ensures
        fits(items.subrange(a, b), page_size),
{
    let s = items.subrange(a, b);
    assert forall|i: int, j: int| 0 <= i <= j <= s.len() && j - i <= 4 implies few_fit(
        #[trigger] s.subrange(i, j),
        page_size,
    ) by {
        assert(s.subrange(i, j) =~= items.subrange(a + i, a + j));
    }
}

/// Every key takes a byte.
proof fn lemma_keys_len(items: Seq<InodeV>)
    requires
        forall|k: int| 0 <= k < items.len() ==> (#[trigger] items[k]).key.len() > 0,
    ensures
        data_len(items) >= items.len(),
    decreases items.len(),
{
    if items.len() > 0 {
        let s = items.drop_last();
        assert forall|k: int| 0 <= k < s.len() implies (#[trigger] s[k]).key.len() > 0 by {
            assert(s[k] == items[k]);
        }
        lemma_keys_len(s);
    }
}

/// Every part of a split is small enough for a page.
proof fn lemma_parts_fit(items: Seq<InodeV>, page_size: int, threshold: int, i: int)
    requires
        page_size_ok(page_size),
        0 <= threshold <= page_size,
        fits(items, page_size),
        forall|k: int| 0 <= k < items.len() ==> (#[trigger] items[k]).key.len() > 0,
        0 <= i < split_parts(items, page_size, threshold).len(),
    ensures
        few_fit(split_parts(items, page_size, threshold)[i], page_size),
        split_parts(items, page_size, threshold)[i].len() < 0xFFFF,
        split_parts(items, page_size, threshold)[i].len() <= 4 || page_len(split_parts(items, page_size, threshold)[i])
            <= page_size,
        forall|j: int|
            0 <= j < split_parts(items, page_size, threshold)[i].len() ==> items.contains(
                #[trigger] split_parts(items, page_size, threshold)[i][j],
            ),
        items.len() > 0 ==> split_parts(items, page_size, threshold)[i].len() > 0,
    decreases items.len(),
{
    let parts = split_parts(items, page_size, threshold);
    let part = parts[i];
    if one_page(items, page_size) {
        assert(parts == seq![items]);
        assert(part == items);
        lemma_keys_len(items);
        if items.len() <= 4 {
            assert(items.subrange(0, items.len() as int) =~= items);
        } else {
            lemma_storable(items);
        }
    } else {
        lemma_split_pos(items, threshold);
        let n = split_pos(items, threshold);
        let more = split_parts(items.skip(n), page_size, threshold);
        assert(parts == seq![items.take(n)] + more);
        if i == 0 {
            assert(part == items.take(n));
            lemma_keys_len(part);
            if n == 2 {
                assert(items.take(2) =~= items.subrange(0, 2));
            } else {
                lemma_storable(part);
            }
            assert forall|j: int| 0 <= j < part.len() implies items.contains(#[trigger] part[j]) by {
                assert(items[j] == part[j]);
            }
        } else {
            assert(part == more[i - 1]);
            assert(items.skip(n) =~= items.subrange(n, items.len() as int));
            lemma_fits_part(items, page_size, n, items.len() as int);
            lemma_parts_fit(items.skip(n), page_size, threshold, i - 1);
            assert forall|j: int| 0 <= j < part.len() implies items.contains(#[trigger] part[j]) by {
                assert(items.skip(n).contains(part[j]));
                let k = items.skip(n).index_of(part[j]);
                assert(items[n + k] == part[j]);
            }
        }
    }
}

/// `e` is the entry for the new page of `part`.
pub open spec fn entry_of(base: Base, b: Base, is_leaf: bool, e: InodeV, part: Seq<InodeV>) -> bool {
    &&& b.forest.contains_key(e.pgid)
    &&& b.forest[e.pgid] == new_tree(base, is_leaf, e.pgid, b.forest[e.pgid].over(), part)
    &&& page_holds(b, is_leaf, e.pgid, part)
    &&& part.len() > 0
    &&& e.key == part[0].key
    &&& e.flags == 0
    &&& e.value.len() == 0
}

/// How often the pages of some roots cover page `p`.
pub open spec fn own_sum(kids: Seq<Tree>, p: Pgid) -> nat
    decreases kids.len(),
{
    if kids.len() == 0 {
        0
    } else {
        own_sum(kids.drop_last(), p) + kids.last().own(p)
    }
}

proof fn lemma_own_add(a: Seq<Tree>, b: Seq<Tree>, p: Pgid)
    ensures
        own_sum(a + b, p) == own_sum(a, p) + own_sum(b, p),
    decreases b.len(),
{
    if b.len() == 0 {
        assert(a + b =~= a);
    } else {
        lemma_own_add(a, b.drop_last(), p);
        assert((a + b).drop_last() =~= a + b.drop_last());
        assert((a + b).last() == b.last());
    }
}

proof fn lemma_own_one(t: Tree, p: Pgid)
    ensures
        own_sum(seq![t], p) == t.own(p),
{
    assert(seq![t].drop_last() =~= Seq::<Tree>::empty());
    assert(own_sum(seq![t].drop_last(), p) == 0);
    assert(seq![t].last() == t);
}

/// The entries that are fine stay so when there are more pages, and stand for the same.
pub proof fn lemma_entries_grow(a: Base, b: Base, is_leaf: bool, v: Seq<InodeV>)
    requires
        extends(a, b),
        entries_ok(a, is_leaf, v),
    ensures
        entries_ok(b, is_leaf, v),
        is_leaf ==> b.subs(v) == a.subs(v),
        !is_leaf ==> kids_of(b, v) == kids_of(a, v),
{
    if is_leaf {
        assert forall|i: int| 0 <= i < v.len() implies (#[trigger] v[i]).pgid == 0 && b.item_ok(v[i]) by {
            lemma_item_grows(a, b, v[i]);
        }
        assert forall|i: int| 0 <= i < v.len() implies b.subs(v)[i] == a.subs(v)[i] by {
            assert(a.item_ok(v[i]));
            lemma_item_grows(a, b, v[i]);
        }
        assert(b.subs(v) =~= a.subs(v));
    } else {
        assert forall|i: int| 0 <= i < v.len() implies kids_of(b, v)[i] == kids_of(a, v)[i] by {
            assert(a.forest.contains_key(v[i].pgid));
        }
        assert(kids_of(b, v) =~= kids_of(a, v));
    }
}

/// `extends` is transitive.
pub proof fn lemma_extends(a: Base, b: Base, c: Base)
    requires
        extends(a, b),
        extends(b, c),
    ensures
        extends(a, c),
{
}

/// The pages of the leaves that a sorted list of elements is distributed over are a row.
proof fn lemma_leaf_rows(
    base: Base,
    b: Base,
    items: Seq<InodeV>,
    page_size: int,
    threshold: int,
    v: Seq<InodeV>,
    lo: Option<Key>,
    hi: Option<Key>,
)
    requires
        0 <= threshold <= page_size,
        in_order(items),
        items.len() > 0,
        forall|i: int| 0 <= i < items.len() ==> key_ok(#[trigger] items[i].key, lo, hi),
        forall|i: int| 0 <= i < items.len() ==> (#[trigger] items[i]).pgid == 0,
        v.len() == split_parts(items, page_size, threshold).len(),
        forall|i: int|
            0 <= i < v.len() ==> entry_of(base, b, true, #[trigger] v[i], split_parts(items, page_size, threshold)[i]),
    ensures
        row_wf(keys_of(v), kids_of(b, v), lo, hi, 0),
        cat(kids_of(b, v)) == items,
        forall|p: Pgid| #[trigger] kids_use(kids_of(b, v), p) == own_sum(kids_of(b, v), p),
    decreases items.len(),
{
    broadcast use group_order;

    let parts = split_parts(items, page_size, threshold);
    let e = v[0];
    let kid = b.forest[e.pgid];
    assert(entry_of(base, b, true, e, parts[0]));
    lemma_cat_one(kid);
    if one_page(items, page_size) {
        assert(parts == seq![items]);
        assert(v =~= seq![e]);
        lemma_row_leaf(items, base.subs(items), lo, hi, e.pgid, kid.over());
        lemma_row_one(e.key, kid, lo, hi);
        assert(keys_of(v) =~= seq![e.key]);
        assert(kids_of(b, v) =~= seq![kid]);
        assert forall|p: Pgid| #[trigger] kids_use(kids_of(b, v), p) == own_sum(kids_of(b, v), p) by {
            lemma_own_one(kid, p);
            assert(kids_use(seq![kid], p) == kid.uses(p));
        }
    } else {
        lemma_split_pos(items, threshold);
        let n = split_pos(items, threshold);
        let first = items.take(n);
        let rest = items.skip(n);
        let more = split_parts(rest, page_size, threshold);
        let mid = items[n].key;
        assert(parts == seq![first] + more);
        assert(key_ok(mid, lo, hi));
        assert forall|i: int| 0 <= i < first.len() implies key_ok(#[trigger] first[i].key, lo, Some(mid)) by {
            assert(key_ok(items[i].key, lo, hi));
            assert(less(items[i].key, items[n].key));
        }
        assert forall|i: int| 0 <= i < first.len() implies (#[trigger] first[i]).pgid == 0 by {
            assert(items[i].pgid == 0);
        }
        lemma_row_leaf(first, base.subs(first), lo, Some(mid), e.pgid, kid.over());
        lemma_row_one(e.key, kid, lo, Some(mid));
        assert forall|i: int| 0 <= i < rest.len() implies key_ok(#[trigger] rest[i].key, Some(mid), hi) by {
            assert(key_ok(items[n + i].key, lo, hi));
            if i > 0 {
                assert(less(items[n].key, items[n + i].key));
            }
        }
        assert forall|i: int| 0 <= i < rest.len() implies (#[trigger] rest[i]).pgid == 0 by {
            assert(items[n + i].pgid == 0);
        }
        let w = v.skip(1);
        assert forall|i: int| 0 <= i < w.len() implies entry_of(base, b, true, #[trigger] w[i], more[i]) by {
            assert(w[i] == v[i + 1]);
            assert(parts[i + 1] == more[i]);
        }
        lemma_leaf_rows(base, b, rest, page_size, threshold, w, Some(mid), hi);
        assert(keys_of(v) =~= seq![e.key] + keys_of(w));
        assert(kids_of(b, v) =~= seq![kid] + kids_of(b, w));
        lemma_row_add(seq![e.key], seq![kid], keys_of(w), kids_of(b, w), lo, mid, hi, 0);
        lemma_cat_add(seq![kid], kids_of(b, w));
        assert(first + rest =~= items);
        assert forall|p: Pgid| #[trigger] kids_use(kids_of(b, v), p) == own_sum(kids_of(b, v), p) by {
            lemma_own_one(kid, p);
            lemma_own_add(seq![kid], kids_of(b, w), p);
            assert(kids_use(seq![kid] + kids_of(b, w), p) == kids_use(seq![kid], p) + kids_use(kids_of(b, w), p));
            assert(kids_use(seq![kid], p) == kid.uses(p));
        }
    }
}

/// The pages of the branches that a row is distributed over are a row.
proof fn lemma_branch_rows(
    base: Base,
    b: Base,
    entries: Seq<InodeV>,
    page_size: int,
    threshold: int,
    v: Seq<InodeV>,
    lo: Option<Key>,
    hi: Option<Key>,
    h: nat,
)
    requires
        0 <= threshold <= page_size,
        row_wf(keys_of(entries), kids_of(base, entries), lo, hi, h),
        entries.len() >= 2,
        v.len() == split_parts(entries, page_size, threshold).len(),
        forall|i: int|
            0 <= i < v.len() ==> entry_of(
                base,
                b,
                false,
                #[trigger] v[i],
                split_parts(entries, page_size, threshold)[i],
            ),
    ensures
        row_wf(keys_of(v), kids_of(b, v), lo, hi, h + 1),
        cat(kids_of(b, v)) == cat(kids_of(base, entries)),
        forall|p: Pgid| #[trigger]
            kids_use(kids_of(b, v), p) == own_sum(kids_of(b, v), p) + kids_use(kids_of(base, entries), p),
    decreases entries.len(),
{
    broadcast use group_order;

    let parts = split_parts(entries, page_size, threshold);
    let e = v[0];
    let kid = b.forest[e.pgid];
    let keys = keys_of(entries);
    let kids = kids_of(base, entries);
    assert(entry_of(base, b, false, e, parts[0]));
    lemma_cat_one(kid);
    if one_page(entries, page_size) {
        assert(parts == seq![entries]);
        assert(v =~= seq![e]);
        lemma_row_branch(keys, kids, lo, hi, h, e.pgid, kid.over());
        assert(key_ok(keys[0], lo, hi));
        assert(e.key == keys[0]);
        lemma_row_one(e.key, kid, lo, hi);
        assert(keys_of(v) =~= seq![e.key]);
        assert(kids_of(b, v) =~= seq![kid]);
        assert forall|p: Pgid| #[trigger]
            kids_use(kids_of(b, v), p) == own_sum(kids_of(b, v), p) + kids_use(kids, p) by {
            lemma_own_one(kid, p);
            assert(kids_use(seq![kid], p) == kid.uses(p));
        }
    } else {
        lemma_split_pos(entries, threshold);
        let n = split_pos(entries, threshold);
        let first = entries.take(n);
        let rest = entries.skip(n);
        let more = split_parts(rest, page_size, threshold);
        let mid = keys[n];
        assert(parts == seq![first] + more);
        lemma_row_split(keys, kids, lo, hi, h, n);
        assert(keys_of(first) =~= keys.take(n));
        assert(kids_of(base, first) =~= kids.take(n));
        assert(keys_of(rest) =~= keys.skip(n));
        assert(kids_of(base, rest) =~= kids.skip(n));
        assert(kids =~= kids.take(n) + kids.skip(n));
        lemma_row_branch(keys.take(n), kids.take(n), lo, Some(mid), h, e.pgid, kid.over());
        assert(key_ok(keys[0], lo, hi));
        assert(key_ok(keys.take(n)[0], lo, Some(mid)));
        assert(e.key == keys[0]);
        lemma_row_one(e.key, kid, lo, Some(mid));
        let w = v.skip(1);
        assert forall|i: int| 0 <= i < w.len() implies entry_of(base, b, false, #[trigger] w[i], more[i]) by {
            assert(w[i] == v[i + 1]);
            assert(parts[i + 1] == more[i]);
        }
        lemma_branch_rows(base, b, rest, page_size, threshold, w, Some(mid), hi, h);
        assert(keys_of(v) =~= seq![e.key] + keys_of(w));
        assert(kids_of(b, v) =~= seq![kid] + kids_of(b, w));
        assert(key_ok(mid, lo, hi));
        lemma_row_add(seq![e.key], seq![kid], keys_of(w), kids_of(b, w), lo, mid, hi, h + 1);
        lemma_cat_add(seq![kid], kids_of(b, w));
        lemma_cat_add(kids.take(n), kids.skip(n));
        assert forall|p: Pgid| #[trigger]
            kids_use(kids_of(b, v), p) == own_sum(kids_of(b, v), p) + kids_use(kids, p) by {
            lemma_own_one(kid, p);
            lemma_own_add(seq![kid], kids_of(b, w), p);
            assert(kids_use(seq![kid] + kids_of(b, w), p) == kids_use(seq![kid], p) + kids_use(kids_of(b, w), p));
            assert(kids_use(seq![kid], p) == kid.uses(p));
            assert(kids_use(kids.take(n) + kids.skip(n), p) == kids_use(kids.take(n), p) + kids_use(kids.skip(n), p));
        }
    }
}

/// The entries of a row are fine as elements of a branch.
pub proof fn lemma_row_entries(b: Base, v: Seq<InodeV>, lo: Option<Key>, hi: Option<Key>, h: nat)
    requires
        row_wf(keys_of(v), kids_of(b, v), lo, hi, h),
        forall|i: int|
            0 <= i < v.len() ==> b.forest.contains_key((#[trigger] v[i]).pgid) && v[i].flags == 0 && v[i].value.len() == 0,
    ensures
        entries_ok(b, false, v),
{
    assert forall|i: int| 0 <= i < v.len() implies (#[trigger] v[i]).key.len() > 0 by {
        assert(key_ok(keys_of(v)[i], lo, hi));
    }
    assert forall|i: int| 0 <= i < v.len() implies b.forest[(#[trigger] v[i]).pgid].first_key() == Some(v[i].key) by {
        assert(kids_of(b, v)[i].first_key() == Some(keys_of(v)[i]));
    }
}

/// Entries of a branch, with their short keys, always have room for four on a page.
pub proof fn lemma_branch_fits(v: Seq<InodeV>, page_size: int)
    requires
        page_size_ok(page_size),
        forall|i: int| 0 <= i < v.len() ==> (#[trigger] v[i]).key.len() <= 32768 && v[i].value.len() == 0,
        page_size <= 0x10_0000 || v.len() < 0xFFFF,
    ensures
        fits(v, page_size),
{
    assert forall|i: int, j: int| 0 <= i <= j <= v.len() && j - i <= 4 implies few_fit(
        #[trigger] v.subrange(i, j),
        page_size,
    ) by {
        let s = v.subrange(i, j);
        assert forall|k: int| 0 <= k < s.len() implies (#[trigger] s[k]).key.len() <= 32768 && s[k].value.len() == 0 by {
            assert(s[k] == v[i + k]);
        }
        lemma_short(s);
        assert(data_len(s) <= 4 * 32768) by (nonlinear_arith)
            requires
                data_len(s) <= 32768 * s.len(),
                s.len() <= 4,
        ;
        lemma_storable(s);
    }
}

proof fn lemma_short(s: Seq<InodeV>)
    requires
        forall|k: int| 0 <= k < s.len() ==> (#[trigger] s[k]).key.len() <= 32768 && s[k].value.len() == 0,
    ensures
        data_len(s) <= 32768 * s.len(),
    decreases s.len(),
{
    if s.len() > 0 {
        assert forall|k: int| 0 <= k < s.len() - 1 implies (#[trigger] s.drop_last()[k]).key.len() <= 32768
            && s.drop_last()[k].value.len() == 0 by {
            assert(s.drop_last()[k] == s[k]);
        }
        lemma_short(s.drop_last());
    }
}

/// What writing pages leaves as it was, and how the freelist and the pages went on.
pub open spec fn went_on(w0: Writer, w1: Writer, list0: FreelistV, list1: FreelistV) -> bool {
    &&& w1.ok(list1)
    &&& w1.page_size == w0.page_size
    &&& w1.max_size == w0.max_size
    &&& w1.txid == w0.txid
    &&& w1.hwm >= w0.hwm
    &&& within_limit(w0, w1)
    &&& extends(w0.base@, w1.base@)
    &&& since(list0, list1, w0.txid)
}

/// Two steps are one.
pub proof fn lemma_went_on(w0: Writer, w1: Writer, w2: Writer, a: FreelistV, b: FreelistV, c: FreelistV)
    requires
        went_on(w0, w1, a, b),
        went_on(w1, w2, b, c),
    ensures
        went_on(w0, w2, a, c),
{
    reveal(in_limit);
    lemma_extends(w0.base@, w1.base@, w2.base@);
    lemma_since(a, b, c, w0.txid);
}

/// Writes the elements of a node to as many new pages as they need. Gives the entries for them.
fn write_parts(w: &mut Writer, fl: &mut Freelist, is_leaf: bool, inodes: Vec<Inode>, split_at: usize) -> (r: Result<
    Vec<Inode>,
>)
    requires
        old(fl).inv(),
        old(w).ok(old(fl)@),
        entries_ok(old(w).base@, is_leaf, views(inodes@)),
        inodes@.len() > 0,
        split_at <= old(w).page_size,
        fits(views(inodes@), old(w).page_size as int),
    ensures
        final(fl).inv(),
        went_on(*old(w), *final(w), old(fl)@, final(fl)@),
        r matches Ok(es) ==> {
            let parts = split_parts(views(inodes@), old(w).page_size as int, split_at as int);
            let v = views(es@);
            &&& es@.len() == parts.len()
            &&& grew_by(*old(w), *final(w), final(fl)@, parts)
            &&& final(w).end() <= old(w).end() + row_cost(views(inodes@), old(w).page_size as int)
            &&& forall|i: int|
                0 <= i < v.len() ==> entry_of(old(w).base@, final(w).base@, is_leaf, #[trigger] v[i], parts[i])
            &&& forall|p: Pgid| #[trigger]
                spare(old(fl)@, old(w).hwm, p) == spare(final(fl)@, final(w).hwm, p) + own_sum(
                    kids_of(final(w).base@, v),
                    p,
                )
        },
        r is Err ==> halted(
            *old(w),
            *final(w),
            final(fl)@,
            split_parts(views(inodes@), old(w).page_size as int, split_at as int),
        ),
        r matches Err(e) ==> e is MaxSizeReached && stuck(
            *final(w),
            final(fl)@,
            old(w).end() + row_cost(views(inodes@), old(w).page_size as int),
        ),
{
    let ghost w0 = *w;
    let ghost list0 = fl@;
    let ghost items = views(inodes@);
    let ghost base = w.base@;
    let page_size: usize = w.page_size;
    let parts: Vec<Vec<Inode>> = split_node(inodes, page_size, split_at);
    let ghost all = split_parts(items, page_size as int, split_at as int);
    let mut es: Vec<Inode> = Vec::new();
    let mut i: usize = 0;
    proof {
        lemma_since_same(list0, w0.txid);
        lemma_split_parts(items, page_size as int, split_at as int);
        assert(kids_of(base, views(es@)) =~= Seq::<Tree>::empty());
        lemma_parts_cost(items, page_size as int, split_at as int);
        assert(all.take(0) =~= Seq::<Seq<InodeV>>::empty());
        lemma_grew_none(w0.hwm as int, w0.page_size as int, list0);
    }
    while i < parts.len()
        invariant
            i <= parts@.len(),
            fl.inv(),
            went_on(w0, *w, list0, fl@),
            w0 == *old(w),
            list0 == old(fl)@,
            base == w0.base@,
            page_size == w0.page_size,
            page_size_ok(page_size as int),
            split_at <= page_size,
            fits(items, page_size as int),
            entries_ok(base, is_leaf, items),
            items.len() > 0,
            items == views(inodes@),
            all == split_parts(items, page_size as int, split_at as int),
            parts@.len() == all.len(),
            forall|k: int| 0 <= k < parts@.len() ==> views((#[trigger] parts@[k])@) == all[k],
            es@.len() == i,
            grew_by(w0, *w, fl@, all.take(i as int)),
            w.end() <= w0.end() + parts_cost(all.take(i as int), page_size as int),
            parts_cost(all, page_size as int) <= row_cost(items, page_size as int),
            forall|k: int| 0 <= k < i ==> entry_of(base, w.base@, is_leaf, #[trigger] views(es@)[k], all[k]),
            forall|p: Pgid| #[trigger]
                spare(list0, w0.hwm, p) == spare(fl@, w.hwm, p) + own_sum(kids_of(w.base@, views(es@)), p),
        decreases parts@.len() - i,
    {
        let ghost part = all[i as int];
        let ghost w1 = *w;
        let ghost list1 = fl@;
        let ghost es0 = es@;
        proof {
            lemma_parts_fit(items, page_size as int, split_at as int, i as int);
            lemma_parts_take(all, i as int, page_size as int);
            lemma_part_entries(base, is_leaf, items, part);
            lemma_entries_grow(base, w1.base@, is_leaf, part);
            assert(views(parts@[i as int]@) == part);
        }
        let pgid: Pgid = match w.emit(fl, is_leaf, parts[i].as_slice()) {
            Ok(p) => p,
            Err(e) => {
                proof {
                    assert(went_on(w1, *w, list1, fl@));
                    lemma_went_on(w0, w1, *w, list0, list1, fl@);
                    lemma_stuck_on(*w, fl@, part);
                    lemma_grew_none(w1.hwm as int, w1.page_size as int, fl@);
                    lemma_grew_more(w0, w1, *w, list1, fl@, all.take(i as int), Seq::empty());
                    assert(all.take(i as int) + Seq::<Seq<InodeV>>::empty() =~= all.take(i as int));
                    assert(halted_at(w0, *w, fl@, all, i as int));
                    lemma_stuck_below(
                        *w,
                        fl@,
                        w.end() + page_len(part) + w.page_size,
                        w0.end() + row_cost(items, page_size as int),
                    );
                }
                return Err(e);
            },
        };
        let key: Vec<u8> = parts[i][0].key.clone();
        let entry = Inode { flags: 0, pgid, key, value: Vec::new() };
        let ghost ev = entry@;
        es.push(entry);
        proof {
            assert(went_on(w1, *w, list1, fl@));
            lemma_went_on(w0, w1, *w, list0, list1, fl@);
            assert(part[0].key == parts@[i as int]@[0].key@);
            assert(ev.key =~= part[0].key);
            assert(ev.value =~= Seq::<u8>::empty());
            assert(entry_of(base, w.base@, is_leaf, ev, part));
            lemma_more_entries(base, w1.base@, w.base@, is_leaf, views(es0), views(es@), all, ev);
            assert forall|p: Pgid| #[trigger]
                spare(list0, w0.hwm, p) == spare(fl@, w.hwm, p) + own_sum(kids_of(w.base@, views(es@)), p) by {
                lemma_more_own(w1.base@, w.base@, views(es0), views(es@), ev, p);
                assert(spare(list0, w0.hwm, p) == spare(list1, w1.hwm, p) + own_sum(kids_of(w1.base@, views(es0)), p));
                assert(spare(list1, w1.hwm, p) == spare(fl@, w.hwm, p) + w.base@.forest[pgid].own(p));
            }
        }
        proof {
            lemma_grew_more(w0, w1, *w, list1, fl@, all.take(i as int), seq![part]);
            assert(all.take(i as int) + seq![part] =~= all.take(i + 1));
        }
        i = i + 1;
    }
    proof {
        assert(all.take(i as int) =~= all);
    }
    Ok(es)
}

/// The elements of a part are fine if all elements are.
proof fn lemma_part_entries(base: Base, is_leaf: bool, items: Seq<InodeV>, part: Seq<InodeV>)
    requires
        entries_ok(base, is_leaf, items),
        forall|j: int| 0 <= j < part.len() ==> items.contains(#[trigger] part[j]),
    ensures
        entries_ok(base, is_leaf, part),
{
    assert forall|j: int| 0 <= j < part.len() implies (#[trigger] part[j]).key.len() > 0 by {
        let k = items.index_of(part[j]);
        assert(items[k] == part[j]);
    }
    if is_leaf {
        assert forall|j: int| 0 <= j < part.len() implies (#[trigger] part[j]).pgid == 0 && base.item_ok(part[j]) by {
            let k = items.index_of(part[j]);
            assert(items[k] == part[j]);
        }
    } else {
        assert forall|j: int| 0 <= j < part.len() implies (#[trigger] part[j]).flags == 0 && part[j].value.len() == 0
            && base.forest.contains_key(part[j].pgid) && base.forest[part[j].pgid].first_key() == Some(part[j].key) by {
            let k = items.index_of(part[j]);
            assert(items[k] == part[j]);
        }
    }
}

proof fn lemma_more_entries(
    base: Base,
    b: Base,
    c: Base,
    is_leaf: bool,
    v0: Seq<InodeV>,
    v1: Seq<InodeV>,
    all: Seq<Seq<InodeV>>,
    e: InodeV,
)
    requires
        extends(b, c),
        v1.len() == v0.len() + 1,
        v1.len() <= all.len(),
        forall|k: int| 0 <= k < v0.len() ==> v1[k] == v0[k],
        v1[v0.len() as int] == e,
        forall|k: int| 0 <= k < v0.len() ==> entry_of(base, b, is_leaf, #[trigger] v0[k], all[k]),
        entry_of(base, c, is_leaf, e, all[v0.len() as int]),
    ensures
        forall|k: int| 0 <= k < v1.len() ==> entry_of(base, c, is_leaf, #[trigger] v1[k], all[k]),
{
    assert forall|k: int| 0 <= k < v1.len() implies entry_of(base, c, is_leaf, #[trigger] v1[k], all[k]) by {
        if k < v0.len() {
            assert(entry_of(base, b, is_leaf, v0[k], all[k]));
        }
    }
}

proof fn lemma_more_own(b: Base, c: Base, v0: Seq<InodeV>, v1: Seq<InodeV>, e: InodeV, p: Pgid)
    requires
        extends(b, c),
        v1.len() == v0.len() + 1,
        forall|k: int| 0 <= k < v0.len() ==> v1[k] == v0[k],
        v1[v0.len() as int] == e,
        forall|k: int| 0 <= k < v0.len() ==> b.forest.contains_key((#[trigger] v0[k]).pgid),
    ensures
        own_sum(kids_of(c, v1), p) == own_sum(kids_of(b, v0), p) + c.forest[e.pgid].own(p),
{
    let x = kids_of(c, v1);
    assert forall|k: int| 0 <= k < v0.len() implies x[k] == kids_of(b, v0)[k] by {
        assert(b.forest.contains_key(v0[k].pgid));
    }
    assert(x.drop_last() =~= kids_of(b, v0));
    assert(x.last() == c.forest[e.pgid]);
}

/// A node that is consistent stays so when there are more pages, and holds the same.
pub proof fn lemma_node_grows(n: Node, a: Base, b: Base)
    requires
        n.ok(a),
        a.ok(),
        extends(a, b),
    ensures
        n.ok(b),
        n.tree(b) == n.tree(a),
    decreases n,
{
    reveal(Node::ok);
    if n.is_leaf {
        let v = views(n.inodes@);
        assert forall|i: int| 0 <= i < n.inodes@.len() implies b.item_ok((#[trigger] n.inodes@[i])@) by {
            lemma_item_grows(a, b, n.inodes@[i]@);
        }
        assert forall|i: int| 0 <= i < v.len() implies b.subs(v)[i] == a.subs(v)[i] by {
            assert(a.item_ok(n.inodes@[i]@));
            lemma_item_grows(a, b, n.inodes@[i]@);
        }
        assert(b.subs(v) =~= a.subs(v));
    } else {
        assert forall|i: int| 0 <= i < n.children@.len() implies #[trigger] n.kids(b)[i] == n.kids(a)[i] && match n.children@[i] {
            Some(c) => c.ok(b) && c.pgid == n.inodes@[i].pgid && c.solid(),
            None => b.forest[n.inodes@[i].pgid].first_key() == Some(n.inodes@[i].key@),
        } by {
            assert(a.old.contains(n.inodes@[i].pgid));
            assert(a.forest.contains_key(n.inodes@[i].pgid));
            match n.children@[i] {
                Some(c) => {
                    lemma_node_grows(*c, a, b);
                },
                None => {},
            }
        }
        assert forall|i: int| 0 <= i < n.children@.len() implies match #[trigger] n.children@[i] {
            Some(c) => c.ok(b) && c.pgid == n.inodes@[i].pgid && c.solid(),
            None => b.forest[n.inodes@[i].pgid].first_key() == Some(n.inodes@[i].key@),
        } by {
            assert(n.kids(b)[i] == n.kids(a)[i]);
        }
        assert(n.kids(b) =~= n.kids(a));
    }
}

/// No page is in use twice, or in use and at hand.
pub open spec fn tidy(t: Tree, list: FreelistV, hwm: Pgid) -> bool {
    forall|p: Pgid| #[trigger] t.uses(p) + spare(list, hwm, p) <= 1
}

/// What spilling a node gives: entries for pages that hold what the node held.
pub open spec fn spilled(
    t: Tree,
    w0: Writer,
    w1: Writer,
    list0: FreelistV,
    list1: FreelistV,
    lo: Option<Key>,
    hi: Option<Key>,
    v: Seq<InodeV>,
) -> bool {
    let b = w1.base@;
    &&& row_wf(keys_of(v), kids_of(b, v), lo, hi, t.height())
    &&& entries_ok(b, false, v)
    &&& cat(kids_of(b, v)) == t.items()
    &&& forall|p: Pgid| #[trigger]
        kids_use(kids_of(b, v), p) + spare(list1, w1.hwm, p) == t.uses(p) + spare(list0, w0.hwm, p)
}

/// The entries of a branch so far, while its children are being spilled.
pub open spec fn spilling(
    t: Tree,
    w0: Writer,
    w1: Writer,
    list0: FreelistV,
    list1: FreelistV,
    lo: Option<Key>,
    hi: Option<Key>,
    v: Seq<InodeV>,
    n: int,
) -> bool {
    let b = w1.base@;
    let kids = t->kids;
    &&& n > 0 ==> row_wf(keys_of(v), kids_of(b, v), lo, kid_hi(t->keys, n - 1, hi), (t.height() - 1) as nat)
    &&& n == 0 ==> v.len() == 0
    &&& v.len() >= n
    &&& entries_ok(b, false, v)
    &&& cat(kids_of(b, v)) == cat(kids.take(n))
    &&& forall|p: Pgid| #[trigger]
        kids_use(kids_of(b, v), p) + kids_use(kids.skip(n), p) + spare(list1, w1.hwm, p) == kids_use(kids, p) + spare(
            list0,
            w0.hwm,
            p,
        )
}

/// One more child of a branch was spilled, giving the entries `more`.
proof fn lemma_spilling(
    t: Tree,
    w0: Writer,
    w1: Writer,
    w2: Writer,
    list0: FreelistV,
    list1: FreelistV,
    list2: FreelistV,
    lo: Option<Key>,
    hi: Option<Key>,
    v: Seq<InodeV>,
    more: Seq<InodeV>,
    n: int,
)
    requires
        t.wf(lo, hi, false),
        t is Branch,
        0 <= n < t->kids.len(),
        spilling(t, w0, w1, list0, list1, lo, hi, v, n),
        extends(w1.base@, w2.base@),
        spilled(
            t->kids[n],
            w1,
            w2,
            list1,
            list2,
            kid_lo(t->keys, n, lo),
            kid_hi(t->keys, n, hi),
            more,
        ),
    ensures
        spilling(t, w0, w2, list0, list2, lo, hi, v + more, n + 1),
{
    broadcast use group_order;

    let keys = t->keys;
    let kids = t->kids;
    let b1 = w1.base@;
    let b = w2.base@;
    let u = v + more;
    let h = (t.height() - 1) as nat;
    lemma_wf_branch(t, lo, hi, false, 2);
    assert(kids[n].height() == h && key_ok(keys[n], lo, hi)) by {
        reveal(Tree::wf_from);
        assert(kids[n].height() == kids[0].height());
    }
    lemma_entries_grow(b1, b, false, v);
    assert(keys_of(u) =~= keys_of(v) + keys_of(more));
    assert(kids_of(b, u) =~= kids_of(b, v) + kids_of(b, more));
    lemma_cat_add(kids_of(b, v), kids_of(b, more));
    lemma_cat_split(kids.take(n + 1), n);
    assert(kids.take(n + 1).take(n) =~= kids.take(n));
    assert(kids.take(n + 1).skip(n + 1) =~= Seq::<Tree>::empty());
    assert(cat(kids_of(b, u)) =~= cat(kids.take(n + 1)));
    lemma_cat_split(kids.skip(n), 0);
    assert(kids.skip(n).take(0) =~= Seq::<Tree>::empty());
    assert(kids.skip(n).skip(1) =~= kids.skip(n + 1));
    if n == 0 {
        assert(u =~= more);
        lemma_row_from(keys_of(more), kids_of(b, more), kid_lo(keys, 0, lo), lo, kid_hi(keys, 0, hi), h);
    } else {
        assert(key_ok(keys[n], lo, hi));
        if n + 1 < keys.len() {
            assert(less(keys[n], keys[n + 1]));
        }
        lemma_row_add(
            keys_of(v),
            kids_of(b, v),
            keys_of(more),
            kids_of(b, more),
            lo,
            keys[n],
            kid_hi(keys, n, hi),
            h,
        );
    }
    assert(entries_ok(b, false, u)) by {
        assert forall|i: int| 0 <= i < u.len() implies #[trigger] u[i] == (if i < v.len() {
            v[i]
        } else {
            more[i - v.len()]
        }) by {
        }
    }
    assert forall|p: Pgid| #[trigger]
        kids_use(kids_of(b, u), p) + kids_use(kids.skip(n + 1), p) + spare(list2, w2.hwm, p) == kids_use(kids, p)
            + spare(list0, w0.hwm, p) by {
        assert(kids_use(kids_of(b, v) + kids_of(b, more), p) == kids_use(kids_of(b, v), p) + kids_use(
            kids_of(b, more),
            p,
        ));
        assert(kids_use(kids_of(b1, v), p) + kids_use(kids.skip(n), p) + spare(list1, w1.hwm, p) == kids_use(kids, p)
            + spare(list0, w0.hwm, p));
        assert(kids_use(kids.skip(n), p) == kids_use(Seq::<Tree>::empty(), p) + kids[n].uses(p) + kids_use(
            kids.skip(n + 1),
            p,
        ));
        assert(kids_use(kids_of(b, more), p) + spare(list2, w2.hwm, p) == kids[n].uses(p) + spare(list1, w1.hwm, p));
    }
}

/// A row that begins at some bound begins at an earlier one.
proof fn lemma_row_from(keys: Seq<Key>, kids: Seq<Tree>, lo: Option<Key>, lo2: Option<Key>, hi: Option<Key>, h: nat)
    requires
        row_wf(keys, kids, lo, hi, h),
        lo2 is None || lo is Some && less_eq(lo2->0, lo->0),
    ensures
        row_wf(keys, kids, lo2, hi, h),
{
    broadcast use group_order;

    assert forall|i: int| 0 <= i < keys.len() implies key_ok(#[trigger] keys[i], lo2, hi) by {
        assert(key_ok(keys[i], lo, hi));
    }
}

/// The entry of a child that is not in memory is a row of its own.
proof fn lemma_kept_child(n: Node, base: Base, w: Writer, list: FreelistV, i: int, lo: Option<Key>, hi: Option<Key>)
    requires
        base.ok(),
        base == w.base@,
        n.ok(base),
        !n.is_leaf,
        n.tree(base).wf(lo, hi, false),
        0 <= i < n.inodes@.len(),
        n.children@[i] is None,
    ensures
        spilled(
            n.tree(base)->kids[i],
            w,
            w,
            list,
            list,
            kid_lo(n.keys(), i, lo),
            kid_hi(n.keys(), i, hi),
            seq![n.inodes@[i]@],
        ),
{
    let t = n.tree(base);
    let e = n.inodes@[i]@;
    let kid = t->kids[i];
    n.lemma_child(base, i);
    lemma_wf_branch(t, lo, hi, false, 2);
    assert(base.forest.contains_key(e.pgid));
    assert(base.page_ok(e.pgid));
    assert(kid == base.forest[e.pgid]);
    lemma_tighten(base, kid, kid_lo(n.keys(), i, lo), kid_hi(n.keys(), i, hi), e.key);
    lemma_row_one(e.key, kid, kid_lo(n.keys(), i, lo), kid_hi(n.keys(), i, hi));
    let v = seq![e];
    assert(keys_of(v) =~= seq![e.key]);
    assert(kids_of(base, v) =~= seq![kid]);
    lemma_cat_one(kid);
    assert(e.flags == 0 && e.value.len() == 0) by {
        reveal(Node::ok);
    }
    lemma_row_entries(base, v, kid_lo(n.keys(), i, lo), kid_hi(n.keys(), i, hi), kid.height());
    assert forall|p: Pgid| #[trigger]
        kids_use(kids_of(base, v), p) + spare(list, w.hwm, p) == kid.uses(p) + spare(list, w.hwm, p) by {
        assert(kids_use(seq![kid], p) == kid.uses(p));
    }
}

/// A child in memory can be spilled if the branch can.
proof fn lemma_child_ready(
    n: Node,
    base: Base,
    t: Tree,
    i: int,
    c: Node,
    w0: Writer,
    w1: Writer,
    list0: FreelistV,
    list1: FreelistV,
    lo: Option<Key>,
    hi: Option<Key>,
    v: Seq<InodeV>,
)
    requires
        t == n.tree(base),
        n.ok(base),
        !n.is_leaf,
        t.wf(lo, hi, false),
        flagged_in(n.children@) == 0,
        0 <= i < n.inodes@.len(),
        n.children@[i] == Some(Box::new(c)),
        tidy(t, list0, w0.hwm),
        base == w0.base@,
        base.ok(),
        extends(base, w1.base@),
        spilling(t, w0, w1, list0, list1, lo, hi, v, i),
        fits(t.items(), base.page_size),
    ensures
        c.ok(w1.base@),
        c.tree(w1.base@) == t->kids[i],
        c.flagged() == 0,
        c.solid(),
        t->kids[i].wf(kid_lo(t->keys, i, lo), kid_hi(t->keys, i, hi), false),
        tidy(t->kids[i], list1, w1.hwm),
        fits(t->kids[i].items(), base.page_size),
{
    let kids = t->kids;
    n.lemma_child(base, i);
    lemma_wf_branch(t, lo, hi, false, 2);
    lemma_node_grows(c, base, w1.base@);
    crate::balance::lemma_flagged_remove(n.children@, i);
    assert(child_flags(n.children@[i]) == c.flagged());
    lemma_cat_split(kids, i);
    let a = cat(kids.take(i));
    let m = kids[i].items();
    let b = cat(kids.skip(i + 1));
    assert(t.items() == a + m + b);
    lemma_fits_part(t.items(), base.page_size, a.len() as int, (a.len() + m.len()) as int);
    assert(t.items().subrange(a.len() as int, (a.len() + m.len()) as int) =~= m);
    assert forall|p: Pgid| #[trigger] kids[i].uses(p) + spare(list1, w1.hwm, p) <= 1 by {
        assert(t.uses(p) + spare(list0, w0.hwm, p) <= 1);
        assert(kids_use(kids_of(w1.base@, v), p) + kids_use(kids.skip(i), p) + spare(list1, w1.hwm, p) == kids_use(
            kids,
            p,
        ) + spare(list0, w0.hwm, p));
        lemma_cat_split(kids.skip(i), 0);
        assert(kids_use(kids.skip(i), p) == kids_use(kids.skip(i).take(0), p) + kids.skip(i)[0].uses(p) + kids_use(
            kids.skip(i).skip(1),
            p,
        ));
    }
}

/// The bytes that the file has at most, once all that is below a branch is written.
pub open spec fn below_top(w: Writer, n: Node) -> int {
    let t = n.tree(w.base@);
    w.end() + t.height() * row_cost(t.items(), w.page_size as int)
}

/// The bytes that the file has at most, once a node and all that is below it is written.
pub open spec fn node_top(w: Writer, n: Node) -> int {
    let t = n.tree(w.base@);
    w.end() + (t.height() + 1) * row_cost(t.items(), w.page_size as int)
}

proof fn lemma_empty_cost(h: int, s: Seq<InodeV>, page_size: int)
    requires
        s.len() == 0,
    ensures
        h * row_cost(s, page_size) == 0,
{
    assert(row_cost(s, page_size) == 0) by (nonlinear_arith)
        requires
            row_cost(s, page_size) == data_len(s) + (32 + page_size) * s.len(),
            data_len(s) == 0,
            s.len() == 0,
    ;
    assert(h * row_cost(s, page_size) == 0) by (nonlinear_arith)
        requires
            row_cost(s, page_size) == 0,
    ;
}

/// What the children up to child `i` take, and all of them.
proof fn lemma_child_cost(t: Tree, lo: Option<Key>, hi: Option<Key>, i: int, page_size: int)
    requires
        t is Branch,
        t.wf(lo, hi, false),
        0 <= i < t->kids.len(),
        page_size >= 0,
    ensures
        t->kids[i].height() + 1 == t.height(),
        t.height() * row_cost(cat(t->kids.take(i + 1)), page_size) == t.height() * row_cost(
            cat(t->kids.take(i)),
            page_size,
        ) + t.height() * row_cost(t->kids[i].items(), page_size),
        t.height() * row_cost(cat(t->kids.take(i + 1)), page_size) <= t.height() * row_cost(t.items(), page_size),
        t.height() * row_cost(t->kids[i].items(), page_size) >= 0,
{
    let kids = t->kids;
    let h = t.height() as int;
    assert(kids[i].height() + 1 == t.height()) by {
        reveal(Tree::wf_from);
        assert(kids[i].height() == kids[0].height());
    }
    let a = cat(kids.take(i));
    let m = kids[i].items();
    let rest = cat(kids.skip(i + 1));
    let none = Seq::<InodeV>::empty();
    lemma_cat_split(kids.take(i + 1), i);
    assert(kids.take(i + 1).take(i) =~= kids.take(i));
    assert(kids.take(i + 1).skip(i + 1) =~= Seq::<Tree>::empty());
    assert(cat(kids.take(i + 1)) =~= a + m);
    lemma_cat_split(kids, i);
    lemma_row_cost_add(a, m, page_size);
    lemma_row_cost_add(a + m, rest, page_size);
    lemma_row_cost_less(none, m, page_size);
    lemma_row_cost_less(none, rest, page_size);
    let x = row_cost(a, page_size);
    let y = row_cost(m, page_size);
    let z = row_cost(rest, page_size);
    assert(h * (x + y) == h * x + h * y) by (nonlinear_arith);
    assert(h * (x + y + z) >= h * (x + y)) by (nonlinear_arith)
        requires
            h >= 0,
            z >= 0,
    ;
    assert(h * y >= 0) by (nonlinear_arith)
        requires
            h >= 0,
            y >= 0,
    ;
}

/// The entries of a row take no more than what is below them.
proof fn lemma_row_entries_cost(b: Base, v: Seq<InodeV>, lo: Option<Key>, hi: Option<Key>, h: nat, page_size: int)
    requires
        b.ok(),
        entries_ok(b, false, v),
        row_wf(keys_of(v), kids_of(b, v), lo, hi, h),
        page_size >= 0,
    ensures
        v.len() <= cat(kids_of(b, v)).len(),
        0 <= row_cost(v, page_size) <= row_cost(cat(kids_of(b, v)), page_size),
{
    assert forall|i: int| 0 <= i < v.len() implies {
        &&& (#[trigger] v[i]).value.len() == 0
        &&& b.forest[v[i].pgid].items().len() > 0
        &&& b.forest[v[i].pgid].items()[0].key == v[i].key
    } by {
        let t = kids_of(b, v)[i];
        assert(t == b.forest[v[i].pgid]);
        assert(b.page_ok(v[i].pgid));
        lemma_page_levels(b, t, Some(keys_of(v)[i]), kid_hi(keys_of(v), i, hi), true);
    }
    lemma_entries_cost(b, v);
    lemma_row_cost_less(v, cat(kids_of(b, v)), page_size);
}

/// Spills the children of a branch that are in memory. Gives the entries of the branch then.
fn spill_children(
    node: Node,
    w: &mut Writer,
    fl: &mut Freelist,
    split_at: usize,
    Ghost(lo): Ghost<Option<Key>>,
    Ghost(hi): Ghost<Option<Key>>,
) -> (r: Result<Vec<Inode>>)
    requires
        old(fl).inv(),
        old(w).ok(old(fl)@),
        node.ok(old(w).base@),
        !node.is_leaf,
        flagged_in(node.children@) == 0,
        node.tree(old(w).base@).wf(lo, hi, false),
        tidy(node.tree(old(w).base@), old(fl)@, old(w).hwm),
        split_at <= old(w).page_size,
        fits(node.tree(old(w).base@).items(), old(w).page_size as int),
    ensures
        final(fl).inv(),
        went_on(*old(w), *final(w), old(fl)@, final(fl)@),
        r matches Ok(es) ==> {
            &&& spilling(
                node.tree(old(w).base@),
                *old(w),
                *final(w),
                old(fl)@,
                final(fl)@,
                lo,
                hi,
                views(es@),
                node.inodes@.len() as int,
            )
            &&& laid_children(
                final(w).base@,
                node.children@,
                views(node.inodes@),
                views(es@),
                split_at as int,
            )
            &&& blanks(views(es@)) == node_row(node, old(w).page_size as int, split_at as int)
            &&& grew_by(
                *old(w),
                *final(w),
                final(fl)@,
                children_pieces(node.children@, old(w).page_size as int, split_at as int),
            )
            &&& final(w).end() <= below_top(*old(w), node)
        },
        r is Err ==> halted(
            *old(w),
            *final(w),
            final(fl)@,
            children_pieces(node.children@, old(w).page_size as int, split_at as int),
        ),
        r matches Err(e) ==> e is MaxSizeReached && stuck(*final(w), final(fl)@, below_top(*old(w), node)),
    decreases node.tree(old(w).base@), 0int,
{
    let ghost n0 = node;
    let ghost w0 = *w;
    let ghost list0 = fl@;
    let ghost base = w.base@;
    let ghost t = node.tree(base);
    let mut rest: Node = node;
    let mut es: Vec<Inode> = Vec::new();
    let n: usize = rest.inodes.len();
    let mut i: usize = 0;
    proof {
        n0.lemma_shape(base);
        lemma_since_same(list0, w0.txid);
        assert(t->kids.take(0) =~= Seq::<Tree>::empty());
        assert(t->kids.skip(0) =~= t->kids);
        assert(kids_of(base, views(es@)) =~= Seq::<Tree>::empty());
        assert(spilling(t, w0, *w, list0, fl@, lo, hi, views(es@), 0));
        assert(n0.children@.take(0) =~= Seq::<Option<Box<Node>>>::empty());
        assert(blanks(views(es@)) =~= Seq::<InodeV>::empty());
        lemma_grew_none(w0.hwm as int, w0.page_size as int, list0);
        assert(cat(t->kids.take(0)) =~= Seq::<InodeV>::empty());
        lemma_empty_cost(t.height() as int, cat(t->kids.take(0)), base.page_size);
    }
    while i < n
        invariant
            i <= n,
            n == n0.inodes@.len(),
            n0.ok(base),
            !n0.is_leaf,
            n0.children@.len() == n,
            flagged_in(n0.children@) == 0,
            w0 == *old(w),
            list0 == old(fl)@,
            base == w0.base@,
            base.ok(),
            base.page_size == w0.page_size,
            t == n0.tree(base),
            t.wf(lo, hi, false),
            tidy(t, list0, w0.hwm),
            split_at <= w0.page_size,
            fits(t.items(), w0.page_size as int),
            fl.inv(),
            went_on(w0, *w, list0, fl@),
            spilling(t, w0, *w, list0, fl@, lo, hi, views(es@), i as int),
            rest.inodes@ == n0.inodes@,
            rest.children@.len() == n,
            forall|k: int| i <= k < n ==> rest.children@[k] == n0.children@[k],
            n0 == node,
            t is Branch,
            laid_children(
                w.base@,
                n0.children@.take(i as int),
                views(n0.inodes@).take(i as int),
                views(es@),
                split_at as int,
            ),
            blanks(views(es@)) == children_row(
                n0.children@.take(i as int),
                views(n0.inodes@).take(i as int),
                w0.page_size as int,
                split_at as int,
            ),
            grew_by(
                w0,
                *w,
                fl@,
                children_pieces(n0.children@.take(i as int), w0.page_size as int, split_at as int),
            ),
            w.end() <= w0.end() + t.height() * row_cost(cat(t->kids.take(i as int)), w0.page_size as int),
        decreases n - i,
    {
        let ghost w1 = *w;
        let ghost list1 = fl@;
        let ghost v = views(es@);
        let ghost so_far = children_pieces(n0.children@.take(i as int), w0.page_size as int, split_at as int);
        proof {
            lemma_next_child(n0.children@, views(n0.inodes@), i as int, w0.page_size as int, split_at as int);
            lemma_first_children(n0.children@, i + 1, w0.page_size as int, split_at as int);
        }
        match rest.children[i].take() {
            Some(c) => {
                proof {
                    lemma_child_ready(n0, base, t, i as int, *c, w0, w1, list0, list1, lo, hi, v);
                    lemma_child_cost(t, lo, hi, i as int, base.page_size);
                }
                let mut more: Vec<Inode> = match spill_node(
                    *c,
                    w,
                    fl,
                    split_at,
                    Ghost(kid_lo(t->keys, i as int, lo)),
                    Ghost(kid_hi(t->keys, i as int, hi)),
                ) {
                    Ok(more) => more,
                    Err(e) => {
                        proof {
                            lemma_went_on(w0, w1, *w, list0, list1, fl@);
                            lemma_stuck_below(*w, fl@, node_top(w1, *c), below_top(w0, n0));
                            let mine = node_pieces(*c, w0.page_size as int, split_at as int);
                            let rest = choose|rest: Seq<Seq<InodeV>>|
                                children_pieces(n0.children@, w0.page_size as int, split_at as int) == #[trigger] (
                                children_pieces(n0.children@.take(i + 1), w0.page_size as int, split_at as int) + rest);
                            lemma_halted_later(w0, w1, *w, list1, fl@, so_far, mine, rest);
                        }
                        return Err(e);
                    },
                };
                let ghost mv = views(more@);
                es.append(&mut more);
                proof {
                    assert(views(es@) =~= v + mv);
                    assert(blanks(v + mv) =~= blanks(v) + blanks(mv));
                    lemma_grew_more(
                        w0,
                        w1,
                        *w,
                        list1,
                        fl@,
                        so_far,
                        node_pieces(*c, w0.page_size as int, split_at as int),
                    );
                    lemma_went_on(w0, w1, *w, list0, list1, fl@);
                    lemma_spilling(t, w0, w1, *w, list0, list1, fl@, lo, hi, v, mv, i as int);
                    lemma_laid_more(
                        w1.base@,
                        w.base@,
                        n0.children@,
                        views(n0.inodes@),
                        i as int,
                        v,
                        mv,
                        split_at as int,
                    );
                }
            },
            None => {
                let entry: Inode = rest.inodes[i].clone();
                let ghost ev = entry@;
                es.push(entry);
                proof {
                    lemma_node_grows(n0, base, w1.base@);
                    lemma_kept_child(n0, w1.base@, w1, list1, i as int, lo, hi);
                    assert(views(es@) =~= v + seq![ev]);
                    assert(blanks(v + seq![ev]) =~= blanks(v) + seq![blank(ev.key)]);
                    assert(so_far + Seq::<Seq<InodeV>>::empty() =~= so_far);
                    assert(extends(w1.base@, w1.base@));
                    lemma_spilling(t, w0, w1, w1, list0, list1, list1, lo, hi, v, seq![ev], i as int);
                    lemma_child_cost(t, lo, hi, i as int, base.page_size);
                    assert(views(n0.inodes@)[i as int] == ev);
                    lemma_laid_more(
                        w1.base@,
                        w1.base@,
                        n0.children@,
                        views(n0.inodes@),
                        i as int,
                        v,
                        seq![ev],
                        split_at as int,
                    );
                }
            },
        }
        i = i + 1;
    }
    proof {
        n0.lemma_shape(base);
        assert(n0.children@.take(n as int) =~= n0.children@);
        assert(views(n0.inodes@).take(n as int) =~= views(n0.inodes@));
        assert(t->kids.take(n as int) =~= t->kids);
    }
    Ok(es)
}

/// What a node is to be written with, once its children are spilled.
pub open spec fn gathered(
    n: Node,
    t: Tree,
    w0: Writer,
    w1: Writer,
    list0: FreelistV,
    list1: FreelistV,
    lo: Option<Key>,
    hi: Option<Key>,
    v: Seq<InodeV>,
) -> bool {
    &&& n.is_leaf ==> v == views(n.inodes@) && w1 == w0 && list1 == list0
    &&& !n.is_leaf ==> spilling(t, w0, w1, list0, list1, lo, hi, v, n.inodes@.len() as int)
}

/// What a node is written with can be written, and its page can be freed.
proof fn lemma_ready(
    n: Node,
    base: Base,
    t: Tree,
    w0: Writer,
    w1: Writer,
    list0: FreelistV,
    list1: FreelistV,
    lo: Option<Key>,
    hi: Option<Key>,
    v: Seq<InodeV>,
)
    requires
        base == w0.base@,
        base.ok(),
        n.ok(base),
        n.solid(),
        n.flagged() == 0,
        t == n.tree(base),
        t.wf(lo, hi, false),
        tidy(t, list0, w0.hwm),
        extends(base, w1.base@),
        w1.base@.ok(),
        page_size_ok(base.page_size),
        fits(t.items(), base.page_size),
        gathered(n, t, w0, w1, list0, list1, lo, hi, v),
    ensures
        entries_ok(w1.base@, n.is_leaf, v),
        v.len() > 0,
        !n.is_leaf ==> v.len() >= 2,
        fits(v, base.page_size),
        0 <= row_cost(v, base.page_size) <= row_cost(t.items(), base.page_size),
        n.pgid != 0 ==> {
            &&& w1.base@.old.contains(n.pgid)
            &&& w1.base@.forest[n.pgid].over() == n.overflow
            &&& forall|p: Pgid| n.pgid <= p <= n.pgid + n.overflow ==> listed(list1, p) == 0
        },
{
    n.lemma_shape(base);
    lemma_wf_one(t, lo, hi, false);
    if n.is_leaf {
        lemma_wf_items(t, lo, hi, false);
        lemma_row_cost_less(v, t.items(), base.page_size);
        assert forall|i: int| 0 <= i < v.len() implies (#[trigger] v[i]).key.len() > 0 && v[i].pgid == 0 && base.item_ok(
            v[i],
        ) by {
            assert(key_ok(t.items()[i].key, lo, hi));
            reveal(Node::ok);
            assert(base.item_ok(n.inodes@[i]@));
        }
        if n.pgid != 0 {
            assert forall|p: Pgid| n.pgid <= p <= n.pgid + n.overflow implies listed(list1, p) == 0 by {
                assert(t.uses(p) + spare(list0, w0.hwm, p) <= 1);
            }
        }
    } else {
        lemma_wf_branch(t, lo, hi, false, 2);
        let k = n.inodes@.len() as int;
        let kids = t->kids;
        assert(kids.skip(k) =~= Seq::<Tree>::empty());
        assert forall|i: int| 0 <= i < v.len() implies (#[trigger] v[i]).key.len() <= 32768 && v[i].value.len() == 0 by {
            assert(key_ok(keys_of(v)[i], lo, kid_hi(t->keys, k - 1, hi)));
        }
        assert(kids.take(k) =~= kids);
        lemma_row_entries_cost(
            w1.base@,
            v,
            lo,
            kid_hi(t->keys, k - 1, hi),
            (t.height() - 1) as nat,
            base.page_size,
        );
        lemma_branch_fits(v, base.page_size);
        if n.pgid != 0 {
            assert(base.forest.contains_key(n.pgid));
            assert forall|p: Pgid| n.pgid <= p <= n.pgid + n.overflow implies listed(list1, p) == 0 by {
                assert(t.uses(p) + spare(list0, w0.hwm, p) <= 1);
                assert(kids_use(kids_of(w1.base@, v), p) + kids_use(kids.skip(k), p) + spare(list1, w1.hwm, p)
                    == kids_use(kids, p) + spare(list0, w0.hwm, p));
            }
        }
    }
}

/// The writer is fine after the page of a node was freed.
pub proof fn lemma_freed(w: Writer, list1: FreelistV, list2: FreelistV, pgid: Pgid, overflow: u32)
    requires
        w.ok(list1),
        ledger(list2, w.base@, w.txid),
        list2.free == list1.free,
        w.base@.old.contains(pgid),
        w.base@.forest[pgid].over() == overflow,
        forall|p: Pgid| pgid <= p <= pgid + overflow ==> listed(list1, p) == 0,
        forall|p: Pgid| #[trigger]
            listed(list2, p) == listed(list1, p) + (if pgid <= p <= pgid + overflow { 1nat } else { 0nat }),
    ensures
        w.ok(list2),
        forall|p: Pgid| #[trigger]
            spare(list2, w.hwm, p) == spare(list1, w.hwm, p) + (if pgid <= p <= pgid + overflow { 1nat } else { 0nat }),
{
    assert(w.base@.forest.contains_key(pgid));
    assert forall|p: Pgid| #[trigger] spare(list2, w.hwm, p) <= 1 by {
        assert(spare(list1, w.hwm, p) <= 1);
        if pgid <= p <= pgid + overflow {
            assert(crate::writer::covers(w.base@, pgid, p));
            assert(listed(list1, p) == 0);
        }
    }
    assert forall|p: Pgid| #[trigger]
        spare(list2, w.hwm, p) == spare(list1, w.hwm, p) + (if pgid <= p <= pgid + overflow { 1nat } else { 0nat }) by {
        assert(listed(list2, p) == listed(list1, p) + (if pgid <= p <= pgid + overflow { 1nat } else { 0nat }));
    }
}

/// The new pages hold what the node held.
proof fn lemma_spilled(
    n: Node,
    t: Tree,
    w0: Writer,
    w1: Writer,
    w2: Writer,
    list0: FreelistV,
    list1: FreelistV,
    list2: FreelistV,
    list3: FreelistV,
    lo: Option<Key>,
    hi: Option<Key>,
    split_at: int,
    ev: Seq<InodeV>,
    v: Seq<InodeV>,
)
    requires
        t == n.tree(w0.base@),
        w0.base@.ok(),
        n.ok(w0.base@),
        t.wf(lo, hi, false),
        gathered(n, t, w0, w1, list0, list1, lo, hi, ev),
        ev.len() > 0,
        !n.is_leaf ==> ev.len() >= 2,
        0 <= split_at <= w1.page_size,
        v.len() == split_parts(ev, w1.page_size as int, split_at).len(),
        forall|i: int|
            0 <= i < v.len() ==> entry_of(
                w1.base@,
                w2.base@,
                n.is_leaf,
                #[trigger] v[i],
                split_parts(ev, w1.page_size as int, split_at)[i],
            ),
        forall|p: Pgid| #[trigger] spare(list2, w1.hwm, p) == spare(list1, w1.hwm, p) + t.own(p),
        forall|p: Pgid| #[trigger]
            spare(list2, w1.hwm, p) == spare(list3, w2.hwm, p) + own_sum(kids_of(w2.base@, v), p),
    ensures
        spilled(t, w0, w2, list0, list3, lo, hi, v),
{
    let b1 = w1.base@;
    let b = w2.base@;
    let ps = w1.page_size as int;
    lemma_wf_one(t, lo, hi, false);
    if n.is_leaf {
        lemma_wf_items(t, lo, hi, false);
        lemma_leaf_rows(b1, b, ev, ps, split_at, v, lo, hi);
    } else {
        lemma_wf_branch(t, lo, hi, false, 2);
        n.lemma_shape(w0.base@);
        let k = n.inodes@.len() as int;
        assert(t->kids.take(k) =~= t->kids);
        assert(t->kids.skip(k) =~= Seq::<Tree>::empty());
        let h = (t.height() - 1) as nat;
        lemma_branch_rows(b1, b, ev, ps, split_at, v, lo, hi, h);
    }
    assert forall|i: int| 0 <= i < v.len() implies b.forest.contains_key((#[trigger] v[i]).pgid) && v[i].flags == 0
        && v[i].value.len() == 0 by {
        assert(entry_of(b1, b, n.is_leaf, v[i], split_parts(ev, ps, split_at)[i]));
    }
    lemma_row_entries(b, v, lo, hi, t.height());
    assert forall|p: Pgid| #[trigger]
        kids_use(kids_of(b, v), p) + spare(list3, w2.hwm, p) == t.uses(p) + spare(list0, w0.hwm, p) by {
        assert(spare(list2, w1.hwm, p) == spare(list1, w1.hwm, p) + t.own(p));
        assert(spare(list2, w1.hwm, p) == spare(list3, w2.hwm, p) + own_sum(kids_of(b, v), p));
        if !n.is_leaf {
            let k = n.inodes@.len() as int;
            assert(kids_use(kids_of(b1, ev), p) + kids_use(t->kids.skip(k), p) + spare(list1, w1.hwm, p) == kids_use(
                t->kids,
                p,
            ) + spare(list0, w0.hwm, p));
        }
    }
}

/// A node takes one row more than what is below it.
proof fn lemma_tops(w: Writer, n: Node)
    requires
        w.page_size >= 0,
    ensures
        node_top(w, n) == below_top(w, n) + row_cost(n.tree(w.base@).items(), w.page_size as int),
        row_cost(n.tree(w.base@).items(), w.page_size as int) >= 0,
        n.is_leaf ==> below_top(w, n) == w.end(),
{
    let t = n.tree(w.base@);
    let c = row_cost(t.items(), w.page_size as int);
    let h = t.height() as int;
    lemma_row_cost_less(Seq::<InodeV>::empty(), t.items(), w.page_size as int);
    assert((h + 1) * c == h * c + c) by (nonlinear_arith);
    if n.is_leaf {
        assert(h * c == 0) by (nonlinear_arith)
            requires
                h == 0,
        ;
    }
}

/// The entries of the parts of a node make up its row.
proof fn lemma_entries_laid(base: Base, b: Base, is_leaf: bool, items: Seq<InodeV>, v: Seq<InodeV>, split_at: int)
    requires
        b.page_size == base.page_size,
        v.len() == split_parts(items, base.page_size, split_at).len(),
        forall|i: int|
            0 <= i < v.len() ==> entry_of(
                base,
                b,
                is_leaf,
                #[trigger] v[i],
                split_parts(items, base.page_size, split_at)[i],
            ),
    ensures
        laid_row(b, is_leaf, items, v, split_at),
{
    let parts = split_parts(items, b.page_size, split_at);
    assert forall|i: int| 0 <= i < v.len() implies {
        &&& page_holds(b, is_leaf, (#[trigger] v[i]).pgid, parts[i])
        &&& parts[i].len() > 0 ==> v[i].key == parts[i][0].key
    } by {
        assert(entry_of(base, b, is_leaf, v[i], parts[i]));
    }
}

/// The entries of the pages of a node are those of its pieces.
proof fn lemma_node_heads(base: Base, b: Base, n: Node, ev: Seq<InodeV>, v: Seq<InodeV>, split_at: int)
    requires
        0 <= split_at,
        n.is_leaf ==> ev == views(n.inodes@),
        !n.is_leaf ==> blanks(ev) == node_row(n, base.page_size, split_at) && entries_ok(base, false, ev),
        v.len() == split_parts(ev, base.page_size, split_at).len(),
        forall|i: int|
            0 <= i < v.len() ==> entry_of(
                base,
                b,
                n.is_leaf,
                #[trigger] v[i],
                split_parts(ev, base.page_size, split_at)[i],
            ),
    ensures
        blanks(v) == heads(node_row(n, base.page_size, split_at), base.page_size, split_at),
{
    let parts = split_parts(ev, base.page_size, split_at);
    assert forall|i: int| 0 <= i < v.len() implies (#[trigger] parts[i]).len() > 0 by {
        assert(entry_of(base, b, n.is_leaf, v[i], parts[i]));
    }
    if n.is_leaf {
        lemma_leaf_heads(ev, v, base.page_size, split_at);
    } else {
        lemma_heads(ev, v, base.page_size, split_at);
    }
}

/// Where a child could not be written the node could not.
proof fn lemma_pieces_below(w0: Writer, n: Node, w1: Writer, list: FreelistV, split_at: int)
    requires
        halted(w0, w1, list, children_pieces(n.children@, w0.page_size as int, split_at)),
    ensures
        halted(w0, w1, list, node_pieces(n, w0.page_size as int, split_at)),
{
    let none = Seq::<Seq<InodeV>>::empty();
    let below = children_pieces(n.children@, w0.page_size as int, split_at);
    let own = split_parts(node_row(n, w0.page_size as int, split_at), w0.page_size as int, split_at);
    lemma_grew_none(w0.hwm as int, w0.page_size as int, list);
    lemma_halted_later(w0, w0, w1, list, list, none, below, own);
    assert(none + below + own =~= below + own);
}

/// The pieces of a node come after those of what is below it.
proof fn lemma_row_written(
    n: Node,
    w0: Writer,
    w1: Writer,
    w2: Writer,
    list1: FreelistV,
    list: FreelistV,
    split_at: int,
    ev: Seq<InodeV>,
)
    requires
        w1.page_size == w0.page_size,
        0 <= split_at,
        list.free.subset_of(list1.free),
        n.is_leaf ==> n.children@.len() == 0 && ev == views(n.inodes@) && w1.hwm == w0.hwm,
        !n.is_leaf ==> {
            &&& blanks(ev) == node_row(n, w0.page_size as int, split_at)
            &&& grew_by(w0, w1, list1, children_pieces(n.children@, w0.page_size as int, split_at))
            &&& entries_ok(w1.base@, false, ev)
        },
    ensures
        grew_by(w1, w2, list, split_parts(ev, w0.page_size as int, split_at)) ==> grew_by(
            w0,
            w2,
            list,
            node_pieces(n, w0.page_size as int, split_at),
        ),
        halted(w1, w2, list, split_parts(ev, w0.page_size as int, split_at)) ==> halted(
            w0,
            w2,
            list,
            node_pieces(n, w0.page_size as int, split_at),
        ),
{
    let ps = w0.page_size as int;
    let none = Seq::<Seq<InodeV>>::empty();
    let below = children_pieces(n.children@, ps, split_at);
    let own = split_parts(node_row(n, ps, split_at), ps, split_at);
    let parts = split_parts(ev, ps, split_at);
    if !n.is_leaf {
        lemma_blank_parts(ev, ps, split_at);
        lemma_same_sizes(w1, w2, list, parts, own);
    } else {
        assert(below =~= none);
        lemma_grew_none(w0.hwm as int, w0.page_size as int, list1);
    }
    if grew_by(w1, w2, list, parts) {
        lemma_grew_more(w0, w1, w2, list1, list, below, own);
    }
    if halted(w1, w2, list, parts) {
        lemma_halted_later(w0, w1, w2, list1, list, below, own, none);
        assert(below + own + none =~= below + own);
    }
}

/// Writes a node and all that is in memory below it to new pages. Gives the entries for those
/// that the node itself was written to.
fn spill_node(
    node: Node,
    w: &mut Writer,
    fl: &mut Freelist,
    split_at: usize,
    Ghost(lo): Ghost<Option<Key>>,
    Ghost(hi): Ghost<Option<Key>>,
) -> (r: Result<Vec<Inode>>)
    requires
        old(fl).inv(),
        old(w).ok(old(fl)@),
        node.ok(old(w).base@),
        node.solid(),
        node.flagged() == 0,
        node.tree(old(w).base@).wf(lo, hi, false),
        tidy(node.tree(old(w).base@), old(fl)@, old(w).hwm),
        split_at <= old(w).page_size,
        fits(node.tree(old(w).base@).items(), old(w).page_size as int),
    ensures
        final(fl).inv(),
        went_on(*old(w), *final(w), old(fl)@, final(fl)@),
        r matches Ok(es) ==> {
            &&& spilled(
                node.tree(old(w).base@),
                *old(w),
                *final(w),
                old(fl)@,
                final(fl)@,
                lo,
                hi,
                views(es@),
            )
            &&& laid_node(final(w).base@, node, views(es@), split_at as int)
            &&& blanks(views(es@)) == heads(
                node_row(node, old(w).page_size as int, split_at as int),
                old(w).page_size as int,
                split_at as int,
            )
            &&& grew_by(*old(w), *final(w), final(fl)@, node_pieces(node, old(w).page_size as int, split_at as int))
            &&& final(w).end() <= node_top(*old(w), node)
        },
        r is Err ==> halted(
            *old(w),
            *final(w),
            final(fl)@,
            node_pieces(node, old(w).page_size as int, split_at as int),
        ),
        r matches Err(e) ==> e is MaxSizeReached && stuck(*final(w), final(fl)@, node_top(*old(w), node)),
    decreases node.tree(old(w).base@), 1int,
{
    let ghost n0 = node;
    let ghost w0 = *w;
    let ghost list0 = fl@;
    let ghost base = w.base@;
    let ghost t = node.tree(base);
    let is_leaf: bool = node.is_leaf;
    let pgid: Pgid = node.pgid;
    let overflow: u32 = node.overflow;
    proof {
        n0.lemma_shape(base);
        lemma_since_same(list0, w0.txid);
    }
    let entries: Vec<Inode> = if is_leaf {
        node.inodes
    } else {
        match spill_children(node, w, fl, split_at, Ghost(lo), Ghost(hi)) {
            Ok(es) => es,
            Err(e) => {
                proof {
                    lemma_tops(w0, n0);
                    lemma_stuck_below(*w, fl@, below_top(w0, n0), node_top(w0, n0));
                    lemma_pieces_below(w0, n0, *w, fl@, split_at as int);
                }
                return Err(e);
            },
        }
    };
    let ghost w1 = *w;
    let ghost list1 = fl@;
    let ghost ev = views(entries@);
    proof {
        lemma_ready(n0, base, t, w0, w1, list0, list1, lo, hi, ev);
        lemma_tops(w0, n0);
    }
    if pgid != 0 {
        free_page(fl, w.txid, pgid, overflow, Ghost(w1.base@));
        proof {
            lemma_freed(w1, list1, fl@, pgid, overflow);
        }
    } else {
        proof {
            lemma_since_same(list1, w0.txid);
        }
    }
    let ghost list2 = fl@;
    proof {
        lemma_went_on(w0, w1, w1, list0, list1, list2);
        assert forall|p: Pgid| #[trigger] spare(list2, w1.hwm, p) == spare(list1, w1.hwm, p) + t.own(p) by {
        }
    }
    match write_parts(w, fl, is_leaf, entries, split_at) {
        Ok(es) => {
            proof {
                lemma_row_written(n0, w0, w1, *w, list1, fl@, split_at as int, ev);
                lemma_node_heads(w1.base@, w.base@, n0, ev, views(es@), split_at as int);
                lemma_went_on(w0, w1, *w, list0, list2, fl@);
                lemma_spilled(n0, t, w0, w1, *w, list0, list1, list2, fl@, lo, hi, split_at as int, ev, views(es@));
                if !is_leaf {
                    lemma_children_stay(w1.base@, w.base@, n0.children@, views(n0.inodes@), ev, split_at as int);
                }
                lemma_entries_laid(w1.base@, w.base@, is_leaf, ev, views(es@), split_at as int);
            }
            Ok(es)
        },
        Err(e) => {
            proof {
                lemma_went_on(w0, w1, *w, list0, list2, fl@);
                lemma_stuck_below(*w, fl@, w1.end() + row_cost(ev, w1.page_size as int), node_top(w0, n0));
                lemma_row_written(n0, w0, w1, *w, list1, fl@, split_at as int, ev);
            }
            Err(e)
        },
    }
}

/// A row that holds what a tree held, on pages that were at hand or that the tree used.
pub open spec fn row_of(t: Tree, w0: Writer, w1: Writer, list0: FreelistV, list1: FreelistV, v: Seq<InodeV>, h: nat) -> bool {
    let b = w1.base@;
    &&& row_wf(keys_of(v), kids_of(b, v), None, None, h)
    &&& entries_ok(b, false, v)
    &&& cat(kids_of(b, v)) == t.items()
    &&& forall|p: Pgid| #[trigger]
        kids_use(kids_of(b, v), p) + spare(list1, w1.hwm, p) == t.uses(p) + spare(list0, w0.hwm, p)
}

/// Branches over a row are a row.
proof fn lemma_row_up(
    t: Tree,
    w0: Writer,
    w1: Writer,
    w2: Writer,
    list0: FreelistV,
    list1: FreelistV,
    list2: FreelistV,
    split_at: int,
    ev: Seq<InodeV>,
    v: Seq<InodeV>,
    h: nat,
)
    requires
        row_of(t, w0, w1, list0, list1, ev, h),
        ev.len() >= 2,
        0 <= split_at <= w1.page_size,
        v.len() == split_parts(ev, w1.page_size as int, split_at).len(),
        forall|i: int|
            0 <= i < v.len() ==> entry_of(
                w1.base@,
                w2.base@,
                false,
                #[trigger] v[i],
                split_parts(ev, w1.page_size as int, split_at)[i],
            ),
        forall|p: Pgid| #[trigger]
            spare(list1, w1.hwm, p) == spare(list2, w2.hwm, p) + own_sum(kids_of(w2.base@, v), p),
    ensures
        row_of(t, w0, w2, list0, list2, v, h + 1),
        v.len() < ev.len(),
        v.len() >= 1,
{
    let b1 = w1.base@;
    let b = w2.base@;
    let ps = w1.page_size as int;
    lemma_split_parts(ev, ps, split_at);
    lemma_branch_rows(b1, b, ev, ps, split_at, v, None, None, h);
    assert forall|i: int| 0 <= i < v.len() implies b.forest.contains_key((#[trigger] v[i]).pgid) && v[i].flags == 0
        && v[i].value.len() == 0 by {
        assert(entry_of(b1, b, false, v[i], split_parts(ev, ps, split_at)[i]));
    }
    lemma_row_entries(b, v, None, None, h + 1);
    assert forall|p: Pgid| #[trigger]
        kids_use(kids_of(b, v), p) + spare(list2, w2.hwm, p) == t.uses(p) + spare(list0, w0.hwm, p) by {
        assert(kids_use(kids_of(b1, ev), p) + spare(list1, w1.hwm, p) == t.uses(p) + spare(list0, w0.hwm, p));
        assert(spare(list1, w1.hwm, p) == spare(list2, w2.hwm, p) + own_sum(kids_of(b, v), p));
    }
}

/// The page `pgid` holds what the tree `t` held.
pub open spec fn root_of_spilled(t: Tree, w0: Writer, w1: Writer, list0: FreelistV, list1: FreelistV, pgid: Pgid) -> bool {
    let u = w1.base@.forest[pgid];
    &&& w1.base@.forest.contains_key(pgid)
    &&& u.wf(None, None, true)
    &&& u.items() == t.items()
    &&& forall|p: Pgid| #[trigger] u.uses(p) + spare(list1, w1.hwm, p) == t.uses(p) + spare(list0, w0.hwm, p)
}

/// No pages could be had for the only piece.
proof fn lemma_one_piece(w0: Writer, w1: Writer, list: FreelistV, piece: Seq<InodeV>)
    requires
        w1.hwm == w0.hwm,
        stuck_at(w1, list, pages_for(page_len(piece), w0.page_size as int)),
    ensures
        halted(w0, w1, list, seq![piece]),
{
    let only = seq![piece];
    assert(only.take(0) =~= Seq::<Seq<InodeV>>::empty());
    lemma_grew_none(w0.hwm as int, w0.page_size as int, list);
    assert(halted_at(w0, w1, list, only, 0));
}

/// Writes an empty root to a new page.
fn spill_empty(pgid: Pgid, overflow: u32, w: &mut Writer, fl: &mut Freelist, Ghost(node): Ghost<Node>) -> (r: Result<Pgid>)
    requires
        old(fl).inv(),
        old(w).ok(old(fl)@),
        node.ok(old(w).base@),
        node.is_leaf,
        node.inodes@.len() == 0,
        node.pgid == pgid,
        node.overflow == overflow,
        tidy(node.tree(old(w).base@), old(fl)@, old(w).hwm),
    ensures
        final(fl).inv(),
        went_on(*old(w), *final(w), old(fl)@, final(fl)@),
        r matches Ok(id) ==> {
            &&& root_of_spilled(
                node.tree(old(w).base@),
                *old(w),
                *final(w),
                old(fl)@,
                final(fl)@,
                id,
            )
            &&& page_holds(final(w).base@, true, id, Seq::empty())
            &&& grew_by(*old(w), *final(w), final(fl)@, seq![Seq::<InodeV>::empty()])
            &&& final(w).end() <= old(w).end() + 16 + old(w).page_size
        },
        r is Err ==> halted(*old(w), *final(w), final(fl)@, seq![Seq::<InodeV>::empty()]),
        r matches Err(e) ==> e is MaxSizeReached && stuck(
            *final(w),
            final(fl)@,
            old(w).end() + 16 + old(w).page_size,
        ),
{
    let ghost w0 = *w;
    let ghost list0 = fl@;
    let ghost t = node.tree(w.base@);
    proof {
        node.lemma_shape(w.base@);
        lemma_since_same(list0, w0.txid);
    }
    if pgid != 0 {
        proof {
            assert(w0.base@.forest.contains_key(pgid));
            assert forall|p: Pgid| pgid <= p <= pgid + overflow implies listed(list0, p) == 0 by {
                assert(t.uses(p) + spare(list0, w0.hwm, p) <= 1);
            }
        }
        free_page(fl, w.txid, pgid, overflow, Ghost(w0.base@));
        proof {
            lemma_freed(w0, list0, fl@, pgid, overflow);
        }
    }
    let ghost list1 = fl@;
    let none: Vec<Inode> = Vec::new();
    proof {
        assert(views(none@) =~= Seq::<InodeV>::empty());
        assert forall|p: Pgid| #[trigger] spare(list1, w0.hwm, p) == spare(list0, w0.hwm, p) + t.own(p) by {
        }
    }
    match w.emit(fl, true, none.as_slice()) {
        Ok(id) => {
            proof {
                lemma_since(list0, list1, fl@, w0.txid);
                let u = w.base@.forest[id];
                reveal(Tree::wf_from);
                assert(t.items() =~= Seq::<InodeV>::empty());
                assert(u.items() =~= t.items());
                assert forall|p: Pgid| #[trigger]
                    u.uses(p) + spare(fl@, w.hwm, p) == t.uses(p) + spare(list0, w0.hwm, p) by {
                    assert(spare(list1, w0.hwm, p) == spare(fl@, w.hwm, p) + u.own(p));
                }
            }
            Ok(id)
        },
        Err(e) => {
            proof {
                lemma_since(list0, list1, fl@, w0.txid);
                lemma_stuck_on(*w, fl@, views(none@));
                lemma_one_piece(w0, *w, fl@, views(none@));
            }
            Err(e)
        },
    }
}

/// The bytes that the file has at most, once a bucket with this root is written.
pub open spec fn root_top(w: Writer, n: Node) -> int {
    w.end() + root_cost(n.tree(w.base@).items(), w.page_size as int)
}

/// What the root of a bucket takes, spelled out.
proof fn lemma_root_top(w: Writer, n: Node)
    requires
        w.page_size >= 0,
    ensures
        ({
            let items = n.tree(w.base@).items();
            let c = row_cost(items, w.page_size as int);
            let l = levels(items.len() as int) as int;
            &&& c >= 0
            &&& l * c >= 0
            &&& root_top(w, n) == w.end() + c + 2 * (l * c) + 16 + w.page_size
        }),
{
    let items = n.tree(w.base@).items();
    let c = row_cost(items, w.page_size as int);
    let l = levels(items.len() as int) as int;
    lemma_row_cost_less(Seq::<InodeV>::empty(), items, w.page_size as int);
    assert((1 + 2 * l) * c == c + 2 * (l * c)) by (nonlinear_arith);
    assert(l * c >= 0) by (nonlinear_arith)
        requires
            l >= 0,
            c >= 0,
    ;
}

/// The rows in memory are no more than the elements can be halved.
proof fn lemma_node_top(w: Writer, n: Node)
    requires
        w.page_size >= 0,
        n.tree(w.base@).height() <= levels(n.tree(w.base@).items().len() as int),
    ensures
        ({
            let items = n.tree(w.base@).items();
            let c = row_cost(items, w.page_size as int);
            let l = levels(items.len() as int) as int;
            node_top(w, n) <= w.end() + c + l * c
        }),
        node_top(w, n) <= root_top(w, n),
{
    let items = n.tree(w.base@).items();
    let c = row_cost(items, w.page_size as int);
    let l = levels(items.len() as int) as int;
    let h = n.tree(w.base@).height() as int;
    lemma_root_top(w, n);
    assert((h + 1) * c <= c + l * c) by (nonlinear_arith)
        requires
            h <= l,
            c >= 0,
    ;
}

proof fn lemma_rises(a: int, b: int, c: int)
    requires
        a <= b,
        c >= 0,
    ensures
        a * c <= b * c,
{
    assert(a * c <= b * c) by (nonlinear_arith)
        requires
            a <= b,
            c >= 0,
    ;
}

proof fn lemma_rise(a: int, b: int, c: int)
    requires
        0 <= a < b,
        c >= 0,
    ensures
        a * c + c <= b * c,
        0 <= a * c,
{
    assert(a * c + c <= b * c && 0 <= a * c) by (nonlinear_arith)
        requires
            0 <= a < b,
            c >= 0,
    ;
}

/// The page of an empty root is laid out.
proof fn lemma_empty_laid(b: Base, n: Node, id: Pgid, split_at: int)
    requires
        n.is_leaf,
        n.inodes@.len() == 0,
        page_holds(b, true, id, Seq::empty()),
        0 <= split_at,
    ensures
        laid_root(b, n, id, split_at),
{
    let none = views(n.inodes@);
    assert(none =~= Seq::<InodeV>::empty());
    let v = seq![InodeV { flags: 0, pgid: id, key: Seq::empty(), value: Seq::empty() }];
    assert(split_parts(none, b.page_size, split_at) == seq![none]);
    assert(laid_row(b, true, none, v, split_at));
    assert(laid_above(b, n, v, split_at, 0));
}

/// Of an empty root one piece is written.
proof fn lemma_empty_pieces(n: Node, page_size: int, split_at: int)
    requires
        n.is_leaf,
        n.inodes@.len() == 0,
        n.children@.len() == 0,
        0 <= split_at <= page_size,
    ensures
        root_pieces(n, page_size, split_at) == seq![Seq::<InodeV>::empty()],
{
    let row = views(n.inodes@);
    assert(row =~= Seq::<InodeV>::empty());
    assert(split_parts(row, page_size, split_at) == seq![row]);
    assert(heads(row, page_size, split_at).len() == 1);
    assert(root_pieces(n, page_size, split_at) =~= seq![row]);
}

/// Writes the root of a bucket and all that is in memory below it to new pages. Gives the page of
/// the root.
pub fn spill_root(node: Node, w: &mut Writer, fl: &mut Freelist, split_at: usize) -> (r: Result<Pgid>)
    requires
        old(fl).inv(),
        old(w).ok(old(fl)@),
        node.ok(old(w).base@),
        node.flagged() == 0,
        node.tree(old(w).base@).wf(None, None, false),
        tidy(node.tree(old(w).base@), old(fl)@, old(w).hwm),
        split_at <= old(w).page_size,
        fits(node.tree(old(w).base@).items(), old(w).page_size as int),
    ensures
        final(fl).inv(),
        went_on(*old(w), *final(w), old(fl)@, final(fl)@),
        r matches Ok(id) ==> {
            &&& root_of_spilled(
                node.tree(old(w).base@),
                *old(w),
                *final(w),
                old(fl)@,
                final(fl)@,
                id,
            )
            &&& laid_root(final(w).base@, node, id, split_at as int)
            &&& grew_by(*old(w), *final(w), final(fl)@, root_pieces(node, old(w).page_size as int, split_at as int))
            &&& final(w).end() <= root_top(*old(w), node)
        },
        r is Err ==> halted(
            *old(w),
            *final(w),
            final(fl)@,
            root_pieces(node, old(w).page_size as int, split_at as int),
        ),
        r matches Err(e) ==> e is MaxSizeReached && stuck(*final(w), final(fl)@, root_top(*old(w), node)),
{
    let ghost w0 = *w;
    let ghost list0 = fl@;
    let ghost t = node.tree(w.base@);
    let ghost n0 = node;
    let ghost c = row_cost(t.items(), w.page_size as int);
    proof {
        lemma_row_cost_less(Seq::<InodeV>::empty(), t.items(), w0.page_size as int);
        lemma_root_top(w0, n0);
    }
    if node.is_leaf && node.inodes.len() == 0 {
        proof {
            n0.lemma_shape(w0.base@);
            lemma_empty_pieces(n0, w0.page_size as int, split_at as int);
        }
        let r = spill_empty(node.pgid, node.overflow, w, fl, Ghost(node));
        proof {
            match r {
                Ok(id) => lemma_empty_laid(w.base@, n0, id, split_at as int),
                Err(_) => lemma_stuck_below(*w, fl@, w0.end() + 16 + w0.page_size, root_top(w0, n0)),
            }
        }
        return r;
    }
    proof {
        lemma_node_levels(n0, w0.base@, None, None);
        lemma_node_top(w0, n0);
    }
    let ghost ps = w.page_size as int;
    let ghost own = node_pieces(n0, ps, split_at as int);
    let ghost above = rising(heads(node_row(n0, ps, split_at as int), ps, split_at as int), ps, split_at as int);
    let ghost none = Seq::<Seq<InodeV>>::empty();
    let mut es: Vec<Inode> = match spill_node(node, w, fl, split_at, Ghost(None), Ghost(None)) {
        Ok(es) => es,
        Err(e) => {
            proof {
                lemma_stuck_below(*w, fl@, node_top(w0, n0), root_top(w0, n0));
                lemma_grew_none(w0.hwm as int, w0.page_size as int, fl@);
                lemma_halted_later(w0, w0, *w, fl@, fl@, none, own, above);
                assert(none + own + above =~= own + above);
            }
            return Err(e);
        },
    };
    let ghost mut h = t.height();
    let ghost mut up: nat = 0;
    let ghost mut done = own;
    proof {
        lemma_row_entries_cost(w.base@, views(es@), None, None, h, w.page_size as int);
        lemma_levels(es@.len() as int, t.items().len() as int);
        lemma_rises(levels(es@.len() as int) as int, levels(t.items().len() as int) as int, c);
    }
    while es.len() > 1
        invariant
            fl.inv(),
            w0 == *old(w),
            list0 == old(fl)@,
            went_on(w0, *w, list0, fl@),
            row_of(t, w0, *w, list0, fl@, views(es@), h),
            split_at <= w0.page_size,
            es@.len() >= 1,
            n0 == node,
            t == n0.tree(w0.base@),
            fits(t.items(), w0.page_size as int),
            c == row_cost(t.items(), w0.page_size as int),
            c >= 0,
            laid_above(w.base@, n0, views(es@), split_at as int, up),
            w.end() + levels(es@.len() as int) * c <= root_top(w0, n0),
            ps == w0.page_size,
            none.len() == 0,
            grew_by(w0, *w, fl@, done),
            root_pieces(n0, ps, split_at as int) == done + rising(blanks(views(es@)), ps, split_at as int),
        decreases es@.len(),
    {
        let ghost w1 = *w;
        let ghost list1 = fl@;
        let ghost ev = views(es@);
        proof {
            assert forall|i: int| 0 <= i < ev.len() implies (#[trigger] ev[i]).key.len() <= 32768 && ev[i].value.len()
                == 0 by {
                assert(key_ok(keys_of(ev)[i], None, None));
            }
            lemma_row_entries_cost(w1.base@, ev, None, None, h, w1.page_size as int);
            lemma_branch_fits(ev, w1.page_size as int);
            lemma_split_parts(ev, w1.page_size as int, split_at as int);
            lemma_levels(
                split_parts(ev, w1.page_size as int, split_at as int).len() as int,
                ev.len() as int / 2,
            );
            lemma_rise(
                levels(split_parts(ev, w1.page_size as int, split_at as int).len() as int) as int,
                levels(ev.len() as int) as int,
                c,
            );
        }
        let ghost next = split_parts(blanks(ev), ps, split_at as int);
        let ghost rest = rising(heads(blanks(ev), ps, split_at as int), ps, split_at as int);
        proof {
            lemma_blank_parts(ev, ps, split_at as int);
            assert(rising(blanks(ev), ps, split_at as int) == next + rest);
        }
        es = match write_parts(w, fl, false, es, split_at) {
            Ok(more) => more,
            Err(e) => {
                proof {
                    lemma_went_on(w0, w1, *w, list0, list1, fl@);
                    lemma_stuck_below(*w, fl@, w1.end() + row_cost(ev, w1.page_size as int), root_top(w0, n0));
                    lemma_same_sizes(w1, *w, fl@, split_parts(ev, ps, split_at as int), next);
                    lemma_halted_later(w0, w1, *w, list1, fl@, done, next, rest);
                    assert(done + next + rest =~= done + (next + rest));
                }
                return Err(e);
            },
        };
        proof {
            lemma_went_on(w0, w1, *w, list0, list1, fl@);
            lemma_row_up(t, w0, w1, *w, list0, list1, fl@, split_at as int, ev, views(es@), h);
            lemma_entries_laid(w1.base@, w.base@, false, ev, views(es@), split_at as int);
            lemma_laid_up(w1.base@, w.base@, n0, ev, views(es@), split_at as int, up);
            h = h + 1;
            up = up + 1;
            lemma_same_sizes(w1, *w, fl@, split_parts(ev, ps, split_at as int), next);
            lemma_grew_more(w0, w1, *w, list1, fl@, done, next);
            assert forall|i: int| 0 <= i < es@.len() implies (#[trigger] split_parts(ev, ps, split_at as int)[i]).len()
                > 0 by {
                assert(entry_of(w1.base@, w.base@, false, views(es@)[i], split_parts(ev, ps, split_at as int)[i]));
            }
            lemma_heads(ev, views(es@), ps, split_at as int);
            assert(done + next + rest =~= done + (next + rest));
            done = done + next;
        }
    }
    let id: Pgid = es[0].pgid;
    proof {
        let v = views(es@);
        let b = w.base@;
        let u = b.forest[id];
        assert(v[0].pgid == id);
        assert(done + none =~= done);
        assert(rising(blanks(v), ps, split_at as int) =~= none);
        lemma_rises(0, levels(es@.len() as int) as int, c);
        assert(laid_above(b, n0, v, split_at as int, up));
        assert(keys_of(v) =~= seq![v[0].key]);
        assert(kids_of(b, v) =~= seq![u]);
        assert(kids_of(b, v)[0].wf(Some(keys_of(v)[0]), kid_hi(keys_of(v), 0, None), true));
        lemma_untie(u, Some(v[0].key), None, 2);
        lemma_cat_one(u);
        assert forall|p: Pgid| #[trigger] u.uses(p) + spare(fl@, w.hwm, p) == t.uses(p) + spare(list0, w0.hwm, p) by {
            assert(kids_use(seq![u], p) == u.uses(p));
            assert(kids_use(kids_of(b, v), p) + spare(fl@, w.hwm, p) == t.uses(p) + spare(list0, w0.hwm, p));
        }
    }
    Ok(id)
}

} // verus!
