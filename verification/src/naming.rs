//! What a search of the database says of what it finds: whatever is wrong with a page or with its keys
//! is named, with the way that leads to it.
use vstd::prelude::*;
use crate::check::{above_text, again_freed_text, below_text, bounded, bounds_text, bucket_root, checked, checked_from, freed_text, kid_least, kid_most, kids_of, lost, met, nested, nested_items, nested_kids, order_text, ordered, ordered_kids, ordered_leaf, problems, relisted, reserved, searched, sifted, twice_text, type_text, unreachable_text, verified, visited, visited_kids, Report, Scope, Text};
use crate::inode::{branch_elem, leaf_elem};
use crate::node::Pages;
use crate::order::{group_order, lemma_total, less};
use crate::page::{header_of, BRANCH_PAGE_FLAG, LEAF_PAGE_FLAG, Meta, Pgid};
use crate::tree::Key;

verus! {

/// What was said is still said, and nothing stands before it.
spec fn after(a: Seq<Text>, b: Seq<Text>) -> bool {
    a.len() <= b.len() && forall|i: int| 0 <= i < a.len() ==> #[trigger] b[i] == a[i]
}

proof fn lemma_said(a: Seq<Text>, b: Seq<Text>, t: Text)
    requires
        after(a, b),
        a.contains(t),
    ensures
        b.contains(t),
{
    let i = a.index_of(t);
    assert(b[i] == t);
}

proof fn lemma_met_after(r: Report, p: Pgid, k: nat, stack: Seq<Pgid>)
    ensures
        after(r.errs, met(r, p, k, stack).errs),
        r.reach.subset_of(met(r, p, k, stack).reach),
        met(r, p, k, stack).halt == r.halt,
    decreases k,
{
    if k > 0 {
        lemma_met_after(r, p, (k - 1) as nat, stack);
    }
}

proof fn lemma_met_twice(r: Report, p: Pgid, k: nat, stack: Seq<Pgid>, q: Pgid)
    requires
        p <= q < p + k,
        p + k - 1 <= u64::MAX,
        r.reach.contains(q),
    ensures
        met(r, p, k, stack).errs.contains(twice_text(q, stack)),
    decreases k,
{
    let before = met(r, p, (k - 1) as nat, stack);
    let end = met(r, p, k, stack);
    if q < p + k - 1 {
        lemma_met_twice(r, p, (k - 1) as nat, stack, q);
        lemma_said(before.errs, end.errs, twice_text(q, stack));
    } else {
        lemma_met_after(r, p, (k - 1) as nat, stack);
        assert(before.reach.contains(q));
        assert(end.errs.last() == twice_text(q, stack));
        assert(end.errs.contains(end.errs.last()));
    }
}

/// What is said of a page with its overflow: each page of it that is in use already.
pub open spec fn twice_named(errs: Seq<Text>, reach: Set<Pgid>, pages: Pages, stack: Seq<Pgid>) -> bool {
    let hdr = header_of(pages.bytes(stack.last()));
    hdr.id + hdr.overflow <= u64::MAX ==> forall|q: Pgid|
        hdr.id <= q <= hdr.id + hdr.overflow && #[trigger] reach.contains(q) ==> errs.contains(twice_text(q, stack))
}

proof fn lemma_twice_still(a: Seq<Text>, b: Seq<Text>, more: Set<Pgid>, fewer: Set<Pgid>, pages: Pages, stack: Seq<Pgid>)
    requires
        after(a, b),
        fewer.subset_of(more),
        twice_named(a, more, pages, stack),
    ensures
        twice_named(b, fewer, pages, stack),
{
    let hdr = header_of(pages.bytes(stack.last()));
    if hdr.id + hdr.overflow <= u64::MAX {
        assert forall|q: Pgid| hdr.id <= q <= hdr.id + hdr.overflow && #[trigger] fewer.contains(q) implies b.contains(
            twice_text(q, stack),
        ) by {
            assert(more.contains(q));
            lemma_said(a, b, twice_text(q, stack));
        }
    }
}

/// What is said of a page: its id is beyond the end of the file, it is free, or it is neither a branch
/// nor a leaf.
pub open spec fn page_named(errs: Seq<Text>, pages: Pages, hwm: Pgid, freed: Set<Pgid>, stack: Seq<Pgid>) -> bool {
    let hdr = header_of(pages.bytes(stack.last()));
    &&& hdr.id > hwm ==> errs.contains(bounds_text(hdr.id, hwm, stack))
    &&& freed.contains(hdr.id) ==> errs.contains(freed_text(hdr.id))
    &&& !freed.contains(hdr.id) && hdr.flags != BRANCH_PAGE_FLAG && hdr.flags != LEAF_PAGE_FLAG ==> errs.contains(
        type_text(hdr.id, hdr.flags, stack),
    )
}

proof fn lemma_page_still(a: Seq<Text>, b: Seq<Text>, s: Scope, stack: Seq<Pgid>)
    requires
        after(a, b),
        page_named(a, s.pages, s.hwm, s.freed, stack),
    ensures
        page_named(b, s.pages, s.hwm, s.freed, stack),
{
    let hdr = header_of(s.pages.bytes(stack.last()));
    if hdr.id > s.hwm {
        lemma_said(a, b, bounds_text(hdr.id, s.hwm, stack));
    }
    if s.freed.contains(hdr.id) {
        lemma_said(a, b, freed_text(hdr.id));
    } else if hdr.flags != BRANCH_PAGE_FLAG && hdr.flags != LEAF_PAGE_FLAG {
        lemma_said(a, b, type_text(hdr.id, hdr.flags, stack));
    }
}

proof fn lemma_verified_named(s: Scope, stack: Seq<Pgid>, r: Report)
    ensures
        ({
            let r1 = verified(s, s.pages.bytes(stack.last()), stack, r);
            &&& after(r.errs, r1.errs)
            &&& r.reach.subset_of(r1.reach)
            &&& r1.halt == r.halt
            &&& page_named(r1.errs, s.pages, s.hwm, s.freed, stack)
            &&& twice_named(r1.errs, r.reach, s.pages, stack)
        }),
{
    let page = s.pages.bytes(stack.last());
    let hdr = header_of(page);
    let over = bounds_text(hdr.id, s.hwm, stack);
    let r1 = r.with_if(hdr.id > s.hwm, over);
    let r2 = met(r1, hdr.id, (hdr.overflow + 1) as nat, stack);
    let r3 = verified(s, page, stack, r);
    lemma_met_after(r1, hdr.id, (hdr.overflow + 1) as nat, stack);
    assert(after(r.errs, r1.errs));
    assert(after(r2.errs, r3.errs));
    if hdr.id > s.hwm {
        assert(r1.errs.last() == over);
        assert(r1.errs.contains(over));
        lemma_said(r1.errs, r2.errs, over);
        lemma_said(r2.errs, r3.errs, over);
    }
    if r3.errs.len() > r2.errs.len() {
        assert(r3.errs.contains(r3.errs.last()));
    }
    if hdr.id + hdr.overflow <= u64::MAX {
        assert forall|q: Pgid| hdr.id <= q <= hdr.id + hdr.overflow && #[trigger] r.reach.contains(q) implies r3.errs.contains(
            twice_text(q, stack),
        ) by {
            lemma_met_twice(r1, hdr.id, (hdr.overflow + 1) as nat, stack, q);
            lemma_said(r2.errs, r3.errs, twice_text(q, stack));
        }
    }
}

/// A way down a tree: the pages on it, and for each but the last the place of its child.
pub struct Way {
    pub stack: Seq<Pgid>,
    pub turns: Seq<int>,
}

impl Way {
    /// Every page but the last is a branch, and leads to the next one.
    pub open spec fn leads(self, pages: Pages) -> bool {
        &&& self.stack.len() == self.turns.len() + 1
        &&& forall|k: int|
            0 <= k < self.turns.len() ==> {
                let page = pages.bytes(#[trigger] self.stack[k]);
                &&& header_of(page).flags == BRANCH_PAGE_FLAG
                &&& 0 <= self.turns[k] < header_of(page).count
                &&& branch_elem(page, self.turns[k]).pgid == self.stack[k + 1]
            }
    }
}

proof fn lemma_visited_after(s: Scope, stack: Seq<Pgid>, n: nat, r: Report)
    requires
        r.halt is None,
    ensures
        after(r.errs, visited(s, stack, n, r).errs),
        r.reach.subset_of(visited(s, stack, n, r).reach),
    decreases n, 0nat,
{
    let p = stack.last();
    let page = s.pages.bytes(p);
    if s.pages.has(p) {
        lemma_verified_named(s, stack, r);
        let r1 = verified(s, page, stack, r);
        if header_of(page).flags == BRANCH_PAGE_FLAG && n > 0 {
            lemma_visited_kids_after(s, stack, kids_of(page), kids_of(page).len(), (n - 1) as nat, r1);
        }
    }
}

proof fn lemma_visited_kids_after(s: Scope, stack: Seq<Pgid>, kids: Seq<Pgid>, k: nat, n: nat, r: Report)
    requires
        r.halt is None,
    ensures
        after(r.errs, visited_kids(s, stack, kids, k, n, r).errs),
        r.reach.subset_of(visited_kids(s, stack, kids, k, n, r).reach),
    decreases n, k + 1,
{
    if k > 0 {
        lemma_visited_kids_after(s, stack, kids, (k - 1) as nat, n, r);
        let before = visited_kids(s, stack, kids, (k - 1) as nat, n, r);
        if before.halt is None {
            lemma_visited_after(s, stack.push(kids[k - 1]), n, before);
        }
    }
}

/// A later stage of the same goes on from an earlier one.
proof fn lemma_visited_kids_on(s: Scope, stack: Seq<Pgid>, kids: Seq<Pgid>, j: nat, k: nat, n: nat, r: Report)
    requires
        j <= k,
        visited_kids(s, stack, kids, k, n, r).halt is None,
    ensures
        visited_kids(s, stack, kids, j, n, r).halt is None,
        after(visited_kids(s, stack, kids, j, n, r).errs, visited_kids(s, stack, kids, k, n, r).errs),
        visited_kids(s, stack, kids, j, n, r).reach.subset_of(visited_kids(s, stack, kids, k, n, r).reach),
    decreases k,
{
    if j < k {
        let before = visited_kids(s, stack, kids, (k - 1) as nat, n, r);
        assert(before.halt is None);
        lemma_visited_kids_on(s, stack, kids, j, (k - 1) as nat, n, r);
        lemma_visited_after(s, stack.push(kids[k - 1]), n, before);
    }
}

/// The page at the end of a way is met, and what is wrong with it is said.
proof fn lemma_visited_named(s: Scope, w: Way, k: int, n: nat, r: Report)
    requires
        w.leads(s.pages),
        0 <= k < w.stack.len(),
        r.halt is None,
        bounded(s.pages, w.stack[k], n),
        visited(s, w.stack.take(k + 1), n, r).halt is None,
    ensures
        page_named(visited(s, w.stack.take(k + 1), n, r).errs, s.pages, s.hwm, s.freed, w.stack),
        twice_named(visited(s, w.stack.take(k + 1), n, r).errs, r.reach, s.pages, w.stack),
        s.pages.has(w.stack.last()),
    decreases w.stack.len() - k,
{
    let stack = w.stack.take(k + 1);
    let p = w.stack[k];
    let page = s.pages.bytes(p);
    let end = visited(s, stack, n, r);
    assert(stack.last() == p);
    assert(s.pages.has(p));
    reveal(bounded);
    lemma_verified_named(s, stack, r);
    let r1 = verified(s, page, stack, r);
    if k == w.stack.len() - 1 {
        assert(stack =~= w.stack);
        lemma_visited_after(s, stack, n, r);
        if header_of(page).flags == BRANCH_PAGE_FLAG {
            lemma_visited_kids_after(s, stack, kids_of(page), kids_of(page).len(), (n - 1) as nat, r1);
        }
        lemma_page_still(r1.errs, end.errs, s, w.stack);
        lemma_twice_still(r1.errs, end.errs, r.reach, r.reach, s.pages, w.stack);
    } else {
        assert(header_of(page).flags == BRANCH_PAGE_FLAG) by {
            assert(w.stack[k] == p);
        }
        let i = w.turns[k];
        let kids = kids_of(page);
        let m = (n - 1) as nat;
        assert(end == visited_kids(s, stack, kids, kids.len(), m, r1));
        lemma_visited_kids_on(s, stack, kids, (i + 1) as nat, kids.len(), m, r1);
        let before = visited_kids(s, stack, kids, i as nat, m, r1);
        let here = visited_kids(s, stack, kids, (i + 1) as nat, m, r1);
        lemma_visited_kids_on(s, stack, kids, i as nat, (i + 1) as nat, m, r1);
        assert(here == visited(s, stack.push(kids[i]), m, before));
        assert(stack.push(kids[i]) =~= w.stack.take(k + 2));
        assert(bounded(s.pages, kids[i], m));
        lemma_visited_named(s, w, k + 1, m, before);
        lemma_page_still(here.errs, end.errs, s, w.stack);
        lemma_visited_kids_after(s, stack, kids, i as nat, m, r1);
        lemma_twice_still(here.errs, end.errs, before.reach, r.reach, s.pages, w.stack);
    }
}

// ---------------------------------------------------------------------------------------------
// The keys.

/// What is said of the keys of a leaf: each that does not come behind the one before it, each that comes
/// before what the branch above says, and each that does not come before what it says of the next child.
pub open spec fn keys_named(
    errs: Seq<Text>,
    pages: Pages,
    lo: Option<Key>,
    hi: Option<Key>,
    stack: Seq<Pgid>,
) -> bool {
    let p = stack.last();
    let page = pages.bytes(p);
    header_of(page).flags == LEAF_PAGE_FLAG ==> forall|j: int|
        0 <= j < header_of(page).count ==> {
            let key = (#[trigger] leaf_elem(page, j)).key;
            &&& lo is Some && less(key, lo->0) ==> errs.contains(below_text(p, key, stack))
            &&& hi is Some && !less(key, hi->0) ==> errs.contains(above_text(p, key, stack))
            &&& j > 0 && !less(leaf_elem(page, j - 1).key, key) ==> errs.contains(
                order_text(p, leaf_elem(page, j - 1).key, key, stack),
            )
        }
}

proof fn lemma_keys_still(a: Seq<Text>, b: Seq<Text>, pages: Pages, lo: Option<Key>, hi: Option<Key>, stack: Seq<Pgid>)
    requires
        after(a, b),
        keys_named(a, pages, lo, hi, stack),
    ensures
        keys_named(b, pages, lo, hi, stack),
{
    let p = stack.last();
    let page = pages.bytes(p);
    if header_of(page).flags == LEAF_PAGE_FLAG {
        assert forall|j: int| 0 <= j < header_of(page).count implies {
            let key = (#[trigger] leaf_elem(page, j)).key;
            &&& lo is Some && less(key, lo->0) ==> b.contains(below_text(p, key, stack))
            &&& hi is Some && !less(key, hi->0) ==> b.contains(above_text(p, key, stack))
            &&& j > 0 && !less(leaf_elem(page, j - 1).key, key) ==> b.contains(
                order_text(p, leaf_elem(page, j - 1).key, key, stack),
            )
        } by {
            let key = leaf_elem(page, j).key;
            if lo is Some && less(key, lo->0) {
                lemma_said(a, b, below_text(p, key, stack));
            }
            if hi is Some && !less(key, hi->0) {
                lemma_said(a, b, above_text(p, key, stack));
            }
            if j > 0 && !less(leaf_elem(page, j - 1).key, key) {
                lemma_said(a, b, order_text(p, leaf_elem(page, j - 1).key, key, stack));
            }
        }
    }
}

proof fn lemma_leaf_after(p: Pgid, page: Seq<u8>, lo: Option<Key>, hi: Option<Key>, stack: Seq<Pgid>, k: nat, r: Report)
    ensures
        after(r.errs, ordered_leaf(p, page, lo, hi, stack, k, r).errs),
        r.reach.subset_of(ordered_leaf(p, page, lo, hi, stack, k, r).reach),
        ordered_leaf(p, page, lo, hi, stack, k, r).halt == r.halt,
    decreases k,
{
    if k > 0 {
        lemma_leaf_after(p, page, lo, hi, stack, (k - 1) as nat, r);
    }
}

/// What is said of one key is said behind what is said of those before it.
proof fn lemma_leaf_on(
    p: Pgid,
    page: Seq<u8>,
    lo: Option<Key>,
    hi: Option<Key>,
    stack: Seq<Pgid>,
    j: nat,
    k: nat,
    r: Report,
)
    requires
        j <= k,
    ensures
        after(ordered_leaf(p, page, lo, hi, stack, j, r).errs, ordered_leaf(p, page, lo, hi, stack, k, r).errs),
        ordered_leaf(p, page, lo, hi, stack, j, r).reach.subset_of(ordered_leaf(p, page, lo, hi, stack, k, r).reach),
    decreases k,
{
    if j < k {
        lemma_leaf_on(p, page, lo, hi, stack, j, (k - 1) as nat, r);
    }
}

proof fn lemma_key_named(p: Pgid, page: Seq<u8>, lo: Option<Key>, hi: Option<Key>, stack: Seq<Pgid>, j: nat, r: Report)
    ensures
        ({
            let errs = ordered_leaf(p, page, lo, hi, stack, j + 1, r).errs;
            let key = leaf_elem(page, j as int).key;
            &&& lo is Some && less(key, lo->0) ==> errs.contains(below_text(p, key, stack))
            &&& hi is Some && !less(key, hi->0) ==> errs.contains(above_text(p, key, stack))
            &&& j > 0 && !less(leaf_elem(page, j - 1).key, key) ==> errs.contains(
                order_text(p, leaf_elem(page, j - 1).key, key, stack),
            )
        }),
{
    broadcast use group_order;

    let before = ordered_leaf(p, page, lo, hi, stack, j, r);
    let key = leaf_elem(page, j as int).key;
    let prev = leaf_elem(page, j - 1).key;
    lemma_total(prev, key);
    let below = below_text(p, key, stack);
    let above = above_text(p, key, stack);
    let order = order_text(p, prev, key, stack);
    let r1 = before.with_if(lo is Some && less(key, lo->0), below);
    let r2 = r1.with_if(hi is Some && !less(key, hi->0), above);
    let r3 = ordered_leaf(p, page, lo, hi, stack, j + 1, r);
    assert(after(r1.errs, r2.errs) && after(r2.errs, r3.errs));
    if lo is Some && less(key, lo->0) {
        assert(r1.errs.last() == below);
        lemma_said(r1.errs, r2.errs, below);
        lemma_said(r2.errs, r3.errs, below);
    }
    if hi is Some && !less(key, hi->0) {
        assert(r2.errs.last() == above);
        lemma_said(r2.errs, r3.errs, above);
    }
    if j > 0 && !less(prev, key) {
        assert(r3.errs.last() == order);
        assert(r3.errs.contains(order));
    }
}

proof fn lemma_leaf_named(pages: Pages, lo: Option<Key>, hi: Option<Key>, stack: Seq<Pgid>, r: Report)
    ensures
        ({
            let p = stack.last();
            let page = pages.bytes(p);
            keys_named(
                ordered_leaf(p, page, lo, hi, stack, header_of(page).count as nat, r).errs,
                pages,
                lo,
                hi,
                stack,
            )
        }),
{
    let p = stack.last();
    let page = pages.bytes(p);
    let n = header_of(page).count as nat;
    let b = ordered_leaf(p, page, lo, hi, stack, n, r).errs;
    assert forall|j: int| 0 <= j < n implies {
        let key = (#[trigger] leaf_elem(page, j)).key;
        &&& lo is Some && less(key, lo->0) ==> b.contains(below_text(p, key, stack))
        &&& hi is Some && !less(key, hi->0) ==> b.contains(above_text(p, key, stack))
        &&& j > 0 && !less(leaf_elem(page, j - 1).key, key) ==> b.contains(
            order_text(p, leaf_elem(page, j - 1).key, key, stack),
        )
    } by {
        let a = ordered_leaf(p, page, lo, hi, stack, (j + 1) as nat, r).errs;
        let key = leaf_elem(page, j).key;
        lemma_key_named(p, page, lo, hi, stack, j as nat, r);
        lemma_leaf_on(p, page, lo, hi, stack, (j + 1) as nat, n, r);
        if lo is Some && less(key, lo->0) {
            lemma_said(a, b, below_text(p, key, stack));
        }
        if hi is Some && !less(key, hi->0) {
            lemma_said(a, b, above_text(p, key, stack));
        }
        if j > 0 && !less(leaf_elem(page, j - 1).key, key) {
            lemma_said(a, b, order_text(p, leaf_elem(page, j - 1).key, key, stack));
        }
    }
}

proof fn lemma_ordered_after(
    pages: Pages,
    p: Pgid,
    lo: Option<Key>,
    hi: Option<Key>,
    stack: Seq<Pgid>,
    n: nat,
    r: Report,
)
    requires
        r.halt is None,
    ensures
        after(r.errs, ordered(pages, p, lo, hi, stack, n, r).0.errs),
        r.reach.subset_of(ordered(pages, p, lo, hi, stack, n, r).0.reach),
    decreases n, 0nat,
{
    if pages.has(p) {
        let page = pages.bytes(p);
        let hdr = header_of(page);
        if hdr.flags == BRANCH_PAGE_FLAG && n > 0 {
            lemma_ordered_kids_after(pages, page, lo, hi, stack, hdr.count as nat, (n - 1) as nat, r);
        } else if hdr.flags == LEAF_PAGE_FLAG {
            lemma_leaf_after(p, page, lo, hi, stack, hdr.count as nat, r);
        }
    }
}

proof fn lemma_ordered_kids_after(
    pages: Pages,
    page: Seq<u8>,
    lo: Option<Key>,
    hi: Option<Key>,
    stack: Seq<Pgid>,
    k: nat,
    n: nat,
    r: Report,
)
    requires
        r.halt is None,
    ensures
        after(r.errs, ordered_kids(pages, page, lo, hi, stack, k, n, r).0.errs),
        r.reach.subset_of(ordered_kids(pages, page, lo, hi, stack, k, n, r).0.reach),
    decreases n, k + 1,
{
    if k > 0 {
        lemma_ordered_kids_after(pages, page, lo, hi, stack, (k - 1) as nat, n, r);
        let before = ordered_kids(pages, page, lo, hi, stack, (k - 1) as nat, n, r).0;
        if before.halt is None {
            let kid = branch_elem(page, k - 1).pgid;
            lemma_ordered_after(
                pages,
                kid,
                kid_least(page, k - 1, lo),
                kid_most(page, k - 1, hi),
                stack.push(kid),
                n,
                before,
            );
        }
    }
}

proof fn lemma_ordered_kids_on(
    pages: Pages,
    page: Seq<u8>,
    lo: Option<Key>,
    hi: Option<Key>,
    stack: Seq<Pgid>,
    j: nat,
    k: nat,
    n: nat,
    r: Report,
)
    requires
        j <= k,
        ordered_kids(pages, page, lo, hi, stack, k, n, r).0.halt is None,
    ensures
        ordered_kids(pages, page, lo, hi, stack, j, n, r).0.halt is None,
        after(
            ordered_kids(pages, page, lo, hi, stack, j, n, r).0.errs,
            ordered_kids(pages, page, lo, hi, stack, k, n, r).0.errs,
        ),
        ordered_kids(pages, page, lo, hi, stack, j, n, r).0.reach.subset_of(
            ordered_kids(pages, page, lo, hi, stack, k, n, r).0.reach,
        ),
    decreases k,
{
    if j < k {
        let before = ordered_kids(pages, page, lo, hi, stack, (k - 1) as nat, n, r).0;
        assert(before.halt is None);
        lemma_ordered_kids_on(pages, page, lo, hi, stack, j, (k - 1) as nat, n, r);
        let kid = branch_elem(page, k - 1).pgid;
        lemma_ordered_after(
            pages,
            kid,
            kid_least(page, k - 1, lo),
            kid_most(page, k - 1, hi),
            stack.push(kid),
            n,
            before,
        );
    }
}

/// What the keys at the end of a way, from its page `k` on, must not come before: the key of the child
/// before, on the last branch that has one.
pub open spec fn least(pages: Pages, w: Way, k: int, lo: Option<Key>) -> Option<Key>
    decreases w.turns.len() - k,
{
    if k >= w.turns.len() {
        lo
    } else {
        let page = pages.bytes(w.stack[k]);
        let i = w.turns[k];
        least(
            pages,
            w,
            k + 1,
            if i > 0 {
                Some(branch_elem(page, i - 1).key)
            } else {
                lo
            },
        )
    }
}

/// What they must come before: the key of the next child, on the last branch that has one.
pub open spec fn most(pages: Pages, w: Way, k: int, hi: Option<Key>) -> Option<Key>
    decreases w.turns.len() - k,
{
    if k >= w.turns.len() {
        hi
    } else {
        let page = pages.bytes(w.stack[k]);
        let i = w.turns[k];
        most(
            pages,
            w,
            k + 1,
            if i + 1 < header_of(page).count {
                Some(branch_elem(page, i + 1).key)
            } else {
                hi
            },
        )
    }
}

proof fn lemma_ordered_named(pages: Pages, w: Way, k: int, lo: Option<Key>, hi: Option<Key>, n: nat, r: Report)
    requires
        w.leads(pages),
        0 <= k < w.stack.len(),
        r.halt is None,
        bounded(pages, w.stack[k], n),
        ordered(pages, w.stack[k], lo, hi, w.stack.take(k + 1), n, r).0.halt is None,
    ensures
        keys_named(
            ordered(pages, w.stack[k], lo, hi, w.stack.take(k + 1), n, r).0.errs,
            pages,
            least(pages, w, k, lo),
            most(pages, w, k, hi),
            w.stack,
        ),
    decreases w.stack.len() - k,
{
    let stack = w.stack.take(k + 1);
    let p = w.stack[k];
    let page = pages.bytes(p);
    let end = ordered(pages, p, lo, hi, stack, n, r).0;
    assert(pages.has(p));
    reveal(bounded);
    if k == w.stack.len() - 1 {
        assert(stack =~= w.stack);
        lemma_leaf_named(pages, lo, hi, w.stack, r);
    } else {
        assert(header_of(page).flags == BRANCH_PAGE_FLAG) by {
            assert(w.stack[k] == p);
        }
        let i = w.turns[k];
        let m = (n - 1) as nat;
        let count = header_of(page).count as nat;
        let kid = branch_elem(page, i).pgid;
        lemma_ordered_kids_on(pages, page, lo, hi, stack, (i + 1) as nat, count, m, r);
        lemma_ordered_kids_on(pages, page, lo, hi, stack, i as nat, (i + 1) as nat, m, r);
        let before = ordered_kids(pages, page, lo, hi, stack, i as nat, m, r).0;
        let here = ordered_kids(pages, page, lo, hi, stack, (i + 1) as nat, m, r).0;
        assert(stack.push(kid) =~= w.stack.take(k + 2));
        assert(bounded(pages, kids_of(page)[i], m));
        let lo1 = kid_least(page, i, lo);
        let hi1 = kid_most(page, i, hi);
        assert(here == ordered(pages, kid, lo1, hi1, stack.push(kid), m, before).0);
        lemma_ordered_named(pages, w, k + 1, lo1, hi1, m, before);
        lemma_keys_still(here.errs, end.errs, pages, least(pages, w, k, lo), most(pages, w, k, hi), w.stack);
    }
}

// ---------------------------------------------------------------------------------------------
// The whole database.

proof fn lemma_sifted_after(s: Scope, p: Pgid, n: nat, r: Report)
    requires
        r.halt is None,
    ensures
        after(r.errs, sifted(s, p, n, r).errs),
        r.reach.subset_of(sifted(s, p, n, r).reach),
{
    let r1 = visited(s, seq![p], n, r);
    lemma_visited_after(s, seq![p], n, r);
    if r1.halt is None {
        lemma_ordered_after(s.pages, p, None, None, seq![p], n, r1);
    }
}

proof fn lemma_searched_after(s: Scope, p: Pgid, n: nat, r: Report)
    requires
        r.halt is None,
    ensures
        after(r.errs, searched(s, p, n, r).errs),
        r.reach.subset_of(searched(s, p, n, r).reach),
    decreases n, 0nat, 2nat,
{
    lemma_sifted_after(s, p, n, r);
    let r1 = sifted(s, p, n, r);
    if r1.halt is None {
        lemma_nested_after(s, p, n, r1);
    }
}

proof fn lemma_nested_after(s: Scope, p: Pgid, n: nat, r: Report)
    requires
        r.halt is None,
    ensures
        after(r.errs, nested(s, p, n, r).errs),
        r.reach.subset_of(nested(s, p, n, r).reach),
    decreases n, 0nat, 1nat,
{
    if s.pages.has(p) && n > 0 {
        let page = s.pages.bytes(p);
        let hdr = header_of(page);
        if hdr.flags == BRANCH_PAGE_FLAG {
            lemma_nested_kids_after(s, kids_of(page), hdr.count as nat, (n - 1) as nat, r);
        } else if hdr.flags == LEAF_PAGE_FLAG {
            lemma_nested_items_after(s, page, hdr.count as nat, (n - 1) as nat, r);
        }
    }
}

proof fn lemma_nested_kids_after(s: Scope, kids: Seq<Pgid>, k: nat, n: nat, r: Report)
    requires
        r.halt is None,
    ensures
        after(r.errs, nested_kids(s, kids, k, n, r).errs),
        r.reach.subset_of(nested_kids(s, kids, k, n, r).reach),
    decreases n, k + 1, 0nat,
{
    if k > 0 {
        lemma_nested_kids_after(s, kids, (k - 1) as nat, n, r);
        let before = nested_kids(s, kids, (k - 1) as nat, n, r);
        if before.halt is None {
            lemma_nested_after(s, kids[k - 1], n, before);
        }
    }
}

proof fn lemma_nested_items_after(s: Scope, page: Seq<u8>, k: nat, n: nat, r: Report)
    requires
        r.halt is None,
    ensures
        after(r.errs, nested_items(s, page, k, n, r).errs),
        r.reach.subset_of(nested_items(s, page, k, n, r).reach),
    decreases n, k + 1, 0nat,
{
    if k > 0 {
        lemma_nested_items_after(s, page, (k - 1) as nat, n, r);
        let before = nested_items(s, page, (k - 1) as nat, n, r);
        if before.halt is None && bucket_root(page, k - 1) != 0 {
            lemma_searched_after(s, bucket_root(page, k - 1), n, before);
        }
    }
}

proof fn lemma_nested_kids_on(s: Scope, kids: Seq<Pgid>, j: nat, k: nat, n: nat, r: Report)
    requires
        j <= k,
        nested_kids(s, kids, k, n, r).halt is None,
    ensures
        nested_kids(s, kids, j, n, r).halt is None,
        after(nested_kids(s, kids, j, n, r).errs, nested_kids(s, kids, k, n, r).errs),
        nested_kids(s, kids, j, n, r).reach.subset_of(nested_kids(s, kids, k, n, r).reach),
    decreases k,
{
    if j < k {
        let before = nested_kids(s, kids, (k - 1) as nat, n, r);
        assert(before.halt is None);
        lemma_nested_kids_on(s, kids, j, (k - 1) as nat, n, r);
        lemma_nested_after(s, kids[k - 1], n, before);
    }
}

proof fn lemma_nested_items_on(s: Scope, page: Seq<u8>, j: nat, k: nat, n: nat, r: Report)
    requires
        j <= k,
        nested_items(s, page, k, n, r).halt is None,
    ensures
        nested_items(s, page, j, n, r).halt is None,
        after(nested_items(s, page, j, n, r).errs, nested_items(s, page, k, n, r).errs),
        nested_items(s, page, j, n, r).reach.subset_of(nested_items(s, page, k, n, r).reach),
    decreases k,
{
    if j < k {
        let before = nested_items(s, page, (k - 1) as nat, n, r);
        assert(before.halt is None);
        lemma_nested_items_on(s, page, j, (k - 1) as nat, n, r);
        if bucket_root(page, k - 1) != 0 {
            lemma_searched_after(s, bucket_root(page, k - 1), n, before);
        }
    }
}

/// The bucket in an element of the leaf at the end of a way is searched too.
proof fn lemma_nested_searched(s: Scope, w: Way, k: int, item: int, n: nat, r: Report) -> (found: (nat, Report))
    requires
        w.leads(s.pages),
        0 <= k < w.stack.len(),
        r.halt is None,
        bounded(s.pages, w.stack[k], n),
        nested(s, w.stack[k], n, r).halt is None,
        header_of(s.pages.bytes(w.stack.last())).flags == LEAF_PAGE_FLAG,
        0 <= item < header_of(s.pages.bytes(w.stack.last())).count,
        bucket_root(s.pages.bytes(w.stack.last()), item) != 0,
    ensures
        ({
            let root = bucket_root(s.pages.bytes(w.stack.last()), item);
            let r1 = searched(s, root, found.0, found.1);
            &&& bounded(s.pages, root, found.0)
            &&& found.1.halt is None
            &&& r.reach.subset_of(found.1.reach)
            &&& r1.halt is None
            &&& after(r1.errs, nested(s, w.stack[k], n, r).errs)
        }),
    decreases w.stack.len() - k,
{
    let p = w.stack[k];
    let page = s.pages.bytes(p);
    assert(s.pages.has(p));
    reveal(bounded);
    let count = header_of(page).count as nat;
    let m = (n - 1) as nat;
    if k == w.stack.len() - 1 {
        assert(w.stack.last() == p);
        lemma_nested_items_on(s, page, (item + 1) as nat, count, m, r);
        lemma_nested_items_on(s, page, item as nat, (item + 1) as nat, m, r);
        lemma_nested_items_after(s, page, item as nat, m, r);
        (m, nested_items(s, page, item as nat, m, r))
    } else {
        assert(header_of(page).flags == BRANCH_PAGE_FLAG) by {
            assert(w.stack[k] == p);
        }
        let i = w.turns[k];
        let kids = kids_of(page);
        lemma_nested_kids_on(s, kids, (i + 1) as nat, count, m, r);
        lemma_nested_kids_on(s, kids, i as nat, (i + 1) as nat, m, r);
        let before = nested_kids(s, kids, i as nat, m, r);
        assert(bounded(s.pages, kids[i], m));
        assert(kids[i] == w.stack[k + 1]);
        lemma_nested_kids_after(s, kids, i as nat, m, r);
        lemma_nested_searched(s, w, k + 1, item, m, before)
    }
}

/// Ways from tree to tree: each ends at a leaf whose element at `items[k]` holds the bucket that the next
/// one begins with.
pub open spec fn route(pages: Pages, ways: Seq<Way>, items: Seq<int>, root: Pgid) -> bool {
    &&& ways.len() == items.len() + 1
    &&& ways[0].stack[0] == root
    &&& forall|k: int| 0 <= k < ways.len() ==> (#[trigger] ways[k]).leads(pages)
    &&& forall|k: int|
        0 <= k < items.len() ==> {
            let page = pages.bytes((#[trigger] ways[k]).stack.last());
            &&& header_of(page).flags == LEAF_PAGE_FLAG
            &&& 0 <= items[k] < header_of(page).count
            &&& bucket_root(page, items[k]) != 0
            &&& bucket_root(page, items[k]) == ways[k + 1].stack[0]
        }
}

proof fn lemma_searched_named(s: Scope, ways: Seq<Way>, items: Seq<int>, root: Pgid, n: nat, r: Report)
    requires
        route(s.pages, ways, items, root),
        r.halt is None,
        bounded(s.pages, root, n),
        searched(s, root, n, r).halt is None,
    ensures
        ({
            let errs = searched(s, root, n, r).errs;
            let w = ways.last();
            &&& page_named(errs, s.pages, s.hwm, s.freed, w.stack)
            &&& twice_named(errs, r.reach, s.pages, w.stack)
            &&& keys_named(errs, s.pages, least(s.pages, w, 0, None), most(s.pages, w, 0, None), w.stack)
        }),
    decreases ways.len(),
{
    let w = ways[0];
    assert(w.leads(s.pages));
    let end = searched(s, root, n, r);
    let r1 = visited(s, seq![root], n, r);
    let r2 = sifted(s, root, n, r);
    assert(w.stack.take(1) =~= seq![root]);
    assert(r1.halt is None && r2.halt is None);
    lemma_nested_after(s, root, n, r2);
    if ways.len() == 1 {
        assert(ways.last() == w);
        lemma_visited_named(s, w, 0, n, r);
        lemma_ordered_after(s.pages, root, None, None, seq![root], n, r1);
        lemma_page_still(r1.errs, r2.errs, s, w.stack);
        lemma_page_still(r2.errs, end.errs, s, w.stack);
        lemma_twice_still(r1.errs, r2.errs, r.reach, r.reach, s.pages, w.stack);
        lemma_twice_still(r2.errs, end.errs, r.reach, r.reach, s.pages, w.stack);
        lemma_ordered_named(s.pages, w, 0, None, None, n, r1);
        lemma_keys_still(
            r2.errs,
            end.errs,
            s.pages,
            least(s.pages, w, 0, None),
            most(s.pages, w, 0, None),
            w.stack,
        );
    } else {
        let item = items[0];
        let rest = ways.drop_first();
        assert(ways[0].leads(s.pages));
        let (m, before) = lemma_nested_searched(s, w, 0, item, n, r2);
        let next = bucket_root(s.pages.bytes(w.stack.last()), item);
        assert(route(s.pages, rest, items.drop_first(), next)) by {
            assert forall|k: int| 0 <= k < rest.len() implies (#[trigger] rest[k]).leads(s.pages) by {
                assert(rest[k] == ways[k + 1]);
            }
            assert forall|k: int| 0 <= k < items.drop_first().len() implies {
                let page = s.pages.bytes((#[trigger] rest[k]).stack.last());
                &&& header_of(page).flags == LEAF_PAGE_FLAG
                &&& 0 <= items.drop_first()[k] < header_of(page).count
                &&& bucket_root(page, items.drop_first()[k]) != 0
                &&& bucket_root(page, items.drop_first()[k]) == rest[k + 1].stack[0]
            } by {
                assert(rest[k] == ways[k + 1]);
                assert(rest[k + 1] == ways[k + 2]);
            }
        }
        lemma_searched_named(s, rest, items.drop_first(), next, m, before);
        let mid = searched(s, next, m, before);
        let last = ways.last();
        assert(rest.last() == last);
        lemma_page_still(mid.errs, end.errs, s, last.stack);
        lemma_sifted_after(s, root, n, r);
        lemma_twice_still(mid.errs, end.errs, before.reach, r.reach, s.pages, last.stack);
        lemma_keys_still(
            mid.errs,
            end.errs,
            s.pages,
            least(s.pages, last, 0, None),
            most(s.pages, last, 0, None),
            last.stack,
        );
    }
}

/// A search of the whole database that could read all pages names all that is wrong with each page that
/// the root leads to, through branches and nested buckets, and with each key on it, and the way to it in
/// its tree; also that the page, or one of its overflow pages, is a meta page or one of the freelist.
pub proof fn lemma_all_named(pages: Pages, meta: Meta, ids: Seq<Pgid>, n: nat, ways: Seq<Way>, items: Seq<int>)
    requires
        meta.root.root != 0,
        bounded(pages, meta.root.root, n),
        route(pages, ways, items, meta.root.root),
        checked(Scope { pages, hwm: meta.pgid, freed: ids.to_set() }, meta, ids, 0, n).halt is None,
    ensures
        ({
            let errs = problems(Scope { pages, hwm: meta.pgid, freed: ids.to_set() }, meta, ids, 0, n);
            let w = ways.last();
            &&& page_named(errs, pages, meta.pgid, ids.to_set(), w.stack)
            &&& twice_named(errs, reserved(pages, meta), pages, w.stack)
            &&& keys_named(errs, pages, least(pages, w, 0, None), most(pages, w, 0, None), w.stack)
        }),
{
    let s = Scope { pages, hwm: meta.pgid, freed: ids.to_set() };
    let r = Report { reach: reserved(pages, meta), errs: relisted(ids, ids.len()), halt: None };
    let r1 = searched(s, meta.root.root, n, r);
    let end = checked_from(s, meta, 0, n, r);
    assert(checked(s, meta, ids, 0, n) == end);
    assert(r1.halt is None);
    lemma_searched_named(s, ways, items, meta.root.root, n, r);
    assert(after(r1.errs, end.errs));
    let w = ways.last();
    lemma_page_still(r1.errs, end.errs, s, w.stack);
    lemma_twice_still(r1.errs, end.errs, r.reach, r.reach, pages, w.stack);
    lemma_keys_still(r1.errs, end.errs, pages, least(pages, w, 0, None), most(pages, w, 0, None), w.stack);
}

proof fn lemma_lost_named(reach: Set<Pgid>, freed: Set<Pgid>, k: nat, p: Pgid)
    requires
        p < k <= u64::MAX,
        !reach.contains(p),
        !freed.contains(p),
    ensures
        lost(reach, freed, k).contains(unreachable_text(p)),
    decreases k,
{
    let before = lost(reach, freed, (k - 1) as nat);
    if p < k - 1 {
        lemma_lost_named(reach, freed, (k - 1) as nat, p);
        lemma_said(before, lost(reach, freed, k), unreachable_text(p));
    } else {
        assert(lost(reach, freed, k).last() == unreachable_text(p));
    }
}

proof fn lemma_relisted_named(ids: Seq<Pgid>, k: nat, i: int, j: int)
    requires
        0 <= i < j < k <= ids.len(),
        ids[i] == ids[j],
    ensures
        relisted(ids, k).contains(again_freed_text(ids[j])),
    decreases k,
{
    let before = relisted(ids, (k - 1) as nat);
    if j < k - 1 {
        lemma_relisted_named(ids, (k - 1) as nat, i, j);
        lemma_said(before, relisted(ids, k), again_freed_text(ids[j]));
    } else {
        assert(ids.take(k - 1)[i] == ids[j]);
        assert(relisted(ids, k).last() == again_freed_text(ids[j]));
    }
}

/// Such a search names each page that it did not come to and that is not free, and each that is listed as
/// free twice.
pub proof fn lemma_lists_named(pages: Pages, meta: Meta, ids: Seq<Pgid>, n: nat, p: Pgid, i: int, j: int)
    requires
        checked(Scope { pages, hwm: meta.pgid, freed: ids.to_set() }, meta, ids, 0, n).halt is None,
    ensures
        ({
            let s = Scope { pages, hwm: meta.pgid, freed: ids.to_set() };
            let errs = problems(s, meta, ids, 0, n);
            &&& p < meta.pgid && !checked(s, meta, ids, 0, n).reach.contains(p) && !ids.contains(p) ==> errs.contains(
                unreachable_text(p),
            )
            &&& 0 <= i < j < ids.len() && ids[i] == ids[j] ==> errs.contains(again_freed_text(ids[j]))
        }),
{
    let s = Scope { pages, hwm: meta.pgid, freed: ids.to_set() };
    let r = Report { reach: reserved(pages, meta), errs: relisted(ids, ids.len()), halt: None };
    let r1 = if meta.root.root == 0 { r } else { searched(s, meta.root.root, n, r) };
    let end = checked_from(s, meta, 0, n, r);
    assert(checked(s, meta, ids, 0, n) == end);
    let more = lost(r1.reach, s.freed, meta.pgid as nat);
    assert(end.errs == r1.errs + more);
    if meta.root.root != 0 {
        lemma_searched_after(s, meta.root.root, n, r);
    }
    if p < meta.pgid && !end.reach.contains(p) && !ids.contains(p) {
        lemma_lost_named(r1.reach, s.freed, meta.pgid as nat, p);
        let k = more.index_of(unreachable_text(p));
        assert(end.errs[r1.errs.len() + k] == unreachable_text(p));
    }
    if 0 <= i < j < ids.len() && ids[i] == ids[j] {
        lemma_relisted_named(ids, ids.len(), i, j);
        lemma_said(r.errs, r1.errs, again_freed_text(ids[j]));
        lemma_said(r1.errs, end.errs, again_freed_text(ids[j]));
    }
}

/// The same of a search that begins at some page, of that page and all that it leads to.
pub proof fn lemma_named_below(
    pages: Pages,
    meta: Meta,
    ids: Seq<Pgid>,
    page_id: u64,
    n: nat,
    ways: Seq<Way>,
    items: Seq<int>,
)
    requires
        2 <= page_id < meta.pgid,
        bounded(pages, page_id, n),
        route(pages, ways, items, page_id),
        checked(Scope { pages, hwm: meta.pgid, freed: ids.to_set() }, meta, ids, page_id, n).halt is None,
    ensures
        ({
            let errs = problems(Scope { pages, hwm: meta.pgid, freed: ids.to_set() }, meta, ids, page_id, n);
            let w = ways.last();
            &&& page_named(errs, pages, meta.pgid, ids.to_set(), w.stack)
            &&& twice_named(errs, reserved(pages, meta), pages, w.stack)
            &&& keys_named(errs, pages, least(pages, w, 0, None), most(pages, w, 0, None), w.stack)
        }),
{
    let s = Scope { pages, hwm: meta.pgid, freed: ids.to_set() };
    let r = Report { reach: reserved(pages, meta), errs: relisted(ids, ids.len()), halt: None };
    assert(checked(s, meta, ids, page_id, n) == searched(s, page_id, n, r));
    lemma_searched_named(s, ways, items, page_id, n, r);
}

} // verus!
