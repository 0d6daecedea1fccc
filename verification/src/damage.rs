//! A search for damage that finds nothing has looked at everything: what it says nothing of is in
//! order.
use vstd::prelude::*;
use crate::check::{bounded, bucket_root, checked, checked_from, kids_of, lost, met, nested, nested_items, nested_kids, ordered, ordered_kids, ordered_leaf, problems, relisted, reserved, searched, sifted, verified, visited, visited_kids, Report, Scope};
use crate::inode::{branch_elem, leaf_elem};
use crate::node::Pages;
use crate::order::{lemma_total, less};
use crate::page::{header_of, BRANCH_PAGE_FLAG, BUCKET_LEAF_FLAG, LEAF_PAGE_FLAG, Meta, PGID_NO_FREELIST, Pgid};
use crate::tree::{root_of, Key};

verus! {

// ---------------------------------------------------------------------------------------------
// What is in order, said of pages and keys.

/// The pages that page `p` covers, by what it says itself.
pub open spec fn own_pages(pages: Pages, p: Pgid) -> Set<Pgid> {
    let hdr = header_of(pages.bytes(p));
    Set::new(|q: Pgid| hdr.id <= q <= hdr.id + hdr.overflow)
}

/// The pages that page `p` and those below it cover, down to `n` steps.
pub open spec fn tree_pages(pages: Pages, p: Pgid, n: nat) -> Set<Pgid>
    decreases n,
{
    let page = pages.bytes(p);
    Set::new(
        |q: Pgid|
            own_pages(pages, p).contains(q) || n > 0 && header_of(page).flags == BRANCH_PAGE_FLAG && exists|i: int|
                0 <= i < header_of(page).count && tree_pages(
                    pages,
                    (#[trigger] branch_elem(page, i)).pgid,
                    (n - 1) as nat,
                ).contains(q),
    )
}

/// Page `p` and those below it can be read, are branches and leaves, have ids within the file, and are
/// not free.
pub open spec fn readable(pages: Pages, hwm: Pgid, freed: Set<Pgid>, p: Pgid, n: nat) -> bool
    decreases n,
{
    let page = pages.bytes(p);
    let hdr = header_of(page);
    &&& pages.has(p)
    &&& hdr.id <= hwm
    &&& !freed.contains(hdr.id)
    &&& hdr.flags == BRANCH_PAGE_FLAG || hdr.flags == LEAF_PAGE_FLAG
    &&& n > 0 && hdr.flags == BRANCH_PAGE_FLAG ==> forall|i: int|
        0 <= i < hdr.count ==> readable(pages, hwm, freed, (#[trigger] branch_elem(page, i)).pgid, (n - 1) as nat)
}

/// No page is covered by two of the pages from `p` on down.
pub open spec fn separate(pages: Pages, p: Pgid, n: nat) -> bool
    decreases n,
{
    let page = pages.bytes(p);
    n > 0 && header_of(page).flags == BRANCH_PAGE_FLAG ==> {
        &&& forall|i: int|
            0 <= i < header_of(page).count ==> {
                let kid = (#[trigger] branch_elem(page, i)).pgid;
                separate(pages, kid, (n - 1) as nat) && own_pages(pages, p).disjoint(
                    tree_pages(pages, kid, (n - 1) as nat),
                )
            }
        &&& forall|i: int, j: int|
            0 <= i < j < header_of(page).count ==> tree_pages(
                pages,
                (#[trigger] branch_elem(page, i)).pgid,
                (n - 1) as nat,
            ).disjoint(tree_pages(pages, (#[trigger] branch_elem(page, j)).pgid, (n - 1) as nat))
    }
}

/// The keys in the leaves from page `p` on down are in order: in a leaf each key comes before the next
/// one, none before `lo`, and all before `hi`. Below a branch these are the key of the child before and
/// that of the child behind.
pub open spec fn in_place(pages: Pages, p: Pgid, lo: Option<Key>, hi: Option<Key>, n: nat) -> bool
    decreases n,
{
    let page = pages.bytes(p);
    let hdr = header_of(page);
    &&& hdr.flags == LEAF_PAGE_FLAG ==> {
        &&& forall|i: int|
            0 <= i < hdr.count ==> (lo is Some ==> !less((#[trigger] leaf_elem(page, i)).key, lo->0)) && (hi is Some
                ==> less(leaf_elem(page, i).key, hi->0))
        &&& forall|i: int|
            0 <= i < hdr.count - 1 ==> less((#[trigger] leaf_elem(page, i)).key, leaf_elem(page, i + 1).key)
    }
    &&& n > 0 && hdr.flags == BRANCH_PAGE_FLAG ==> forall|i: int|
        0 <= i < hdr.count ==> in_place(
            pages,
            (#[trigger] branch_elem(page, i)).pgid,
            if i > 0 { Some(branch_elem(page, i - 1).key) } else { lo },
            if i + 1 < hdr.count { Some(branch_elem(page, i + 1).key) } else { hi },
            (n - 1) as nat,
        )
}

/// Element `i` of a leaf page is a bucket with a root page of its own.
pub open spec fn holds_bucket(page: Seq<u8>, i: int) -> bool {
    let item = leaf_elem(page, i);
    item.flags & BUCKET_LEAF_FLAG != 0 && item.value.len() >= 16 && root_of(item) != 0
}

/// The pages that the buckets nested in the tree from page `p` on down cover, down to `n` steps.
pub open spec fn nested_pages(pages: Pages, p: Pgid, n: nat) -> Set<Pgid>
    decreases n,
{
    let page = pages.bytes(p);
    let hdr = header_of(page);
    Set::new(
        |q: Pgid|
            n > 0 && ({
                ||| hdr.flags == BRANCH_PAGE_FLAG && exists|i: int|
                    0 <= i < hdr.count && nested_pages(
                        pages,
                        (#[trigger] branch_elem(page, i)).pgid,
                        (n - 1) as nat,
                    ).contains(q)
                ||| hdr.flags == LEAF_PAGE_FLAG && exists|i: int|
                    0 <= i < hdr.count && #[trigger] holds_bucket(page, i) && (tree_pages(
                        pages,
                        root_of(leaf_elem(page, i)),
                        (n - 1) as nat,
                    ).contains(q) || nested_pages(pages, root_of(leaf_elem(page, i)), (n - 1) as nat).contains(q))
            }),
    )
}

/// The pages that a bucket with its root at page `p` covers, with all buckets in it.
pub open spec fn bucket_pages(pages: Pages, p: Pgid, n: nat) -> Set<Pgid> {
    tree_pages(pages, p, n).union(nested_pages(pages, p, n))
}

/// The tree of the bucket with its root at page `p` is in order.
pub open spec fn tree_intact(pages: Pages, hwm: Pgid, freed: Set<Pgid>, p: Pgid, n: nat) -> bool {
    &&& readable(pages, hwm, freed, p, n)
    &&& separate(pages, p, n)
    &&& in_place(pages, p, None, None, n)
}

/// All buckets nested in the tree from page `p` on down are in order, and no two of them share a page.
pub open spec fn nested_intact(pages: Pages, hwm: Pgid, freed: Set<Pgid>, p: Pgid, n: nat) -> bool
    decreases n, 0nat,
{
    let page = pages.bytes(p);
    let hdr = header_of(page);
    n > 0 ==> {
        &&& hdr.flags == BRANCH_PAGE_FLAG ==> {
            &&& forall|i: int|
                0 <= i < hdr.count ==> nested_intact(
                    pages,
                    hwm,
                    freed,
                    (#[trigger] branch_elem(page, i)).pgid,
                    (n - 1) as nat,
                )
            &&& forall|i: int, j: int|
                0 <= i < j < hdr.count ==> nested_pages(
                    pages,
                    (#[trigger] branch_elem(page, i)).pgid,
                    (n - 1) as nat,
                ).disjoint(nested_pages(pages, (#[trigger] branch_elem(page, j)).pgid, (n - 1) as nat))
        }
        &&& hdr.flags == LEAF_PAGE_FLAG ==> {
            &&& forall|i: int|
                0 <= i < hdr.count && #[trigger] holds_bucket(page, i) ==> bucket_intact(
                    pages,
                    hwm,
                    freed,
                    root_of(leaf_elem(page, i)),
                    (n - 1) as nat,
                )
            &&& forall|i: int, j: int|
                0 <= i < j < hdr.count && #[trigger] holds_bucket(page, i) && #[trigger] holds_bucket(page, j)
                    ==> bucket_pages(pages, root_of(leaf_elem(page, i)), (n - 1) as nat).disjoint(
                    bucket_pages(pages, root_of(leaf_elem(page, j)), (n - 1) as nat),
                )
        }
    }
}

/// The bucket with its root at page `p`, and all buckets in it, are in order.
pub open spec fn bucket_intact(pages: Pages, hwm: Pgid, freed: Set<Pgid>, p: Pgid, n: nat) -> bool
    decreases n, 1nat,
{
    &&& tree_intact(pages, hwm, freed, p, n)
    &&& nested_intact(pages, hwm, freed, p, n)
    &&& tree_pages(pages, p, n).disjoint(nested_pages(pages, p, n))
}

// ---------------------------------------------------------------------------------------------
// Why nothing is passed over.

/// Nothing was found.
spec fn quiet(r: Report) -> bool {
    r.errs.len() == 0 && r.halt is None
}

/// More pages were met, none of which had been.
spec fn gained(r: Report, r1: Report, more: Set<Pgid>) -> bool {
    &&& quiet(r)
    &&& r1.reach == r.reach.union(more)
    &&& r.reach.disjoint(more)
}

proof fn lemma_met(r: Report, p: Pgid, k: nat, stack: Seq<Pgid>)
    requires
        quiet(met(r, p, k, stack)),
        p + k - 1 <= u64::MAX,
    ensures
        gained(r, met(r, p, k, stack), Set::new(|q: Pgid| p <= q < p + k)),
    decreases k,
{
    let more = Set::new(|q: Pgid| p <= q < p + k);
    if k == 0 {
        assert(more =~= Set::empty());
        assert(r.reach.union(more) =~= r.reach);
    } else {
        let before = met(r, p, (k - 1) as nat, stack);
        let q = (p + k - 1) as u64;
        assert(!before.reach.contains(q));
        lemma_met(r, p, (k - 1) as nat, stack);
        assert(met(r, p, k, stack).reach =~= r.reach.union(more));
    }
}

proof fn lemma_verified(s: Scope, p: Pgid, stack: Seq<Pgid>, r: Report)
    requires
        quiet(verified(s, s.pages.bytes(p), stack, r)),
        header_of(s.pages.bytes(p)).id + header_of(s.pages.bytes(p)).overflow <= u64::MAX,
    ensures
        gained(r, verified(s, s.pages.bytes(p), stack, r), own_pages(s.pages, p)),
        header_of(s.pages.bytes(p)).id <= s.hwm,
        !s.freed.contains(header_of(s.pages.bytes(p)).id),
        header_of(s.pages.bytes(p)).flags == BRANCH_PAGE_FLAG || header_of(s.pages.bytes(p)).flags == LEAF_PAGE_FLAG,
{
    let page = s.pages.bytes(p);
    let hdr = header_of(page);
    let r1 = r.with_if(hdr.id > s.hwm, crate::check::bounds_text(hdr.id, s.hwm, stack));
    let r2 = met(r1, hdr.id, (hdr.overflow + 1) as nat, stack);
    assert(quiet(r2));
    lemma_met(r1, hdr.id, (hdr.overflow + 1) as nat, stack);
    assert(Set::new(|q: Pgid| hdr.id <= q < hdr.id + (hdr.overflow + 1)) =~= own_pages(s.pages, p));
}

/// The pages below the first `k` children of a branch page.
spec fn kids_pages(pages: Pages, p: Pgid, k: int, n: nat) -> Set<Pgid> {
    let page = pages.bytes(p);
    Set::new(
        |q: Pgid|
            exists|i: int|
                0 <= i < k && tree_pages(pages, (#[trigger] branch_elem(page, i)).pgid, n).contains(q),
    )
}

proof fn lemma_visited(s: Scope, stack: Seq<Pgid>, n: nat, r: Report)
    requires
        stack.len() > 0,
        bounded(s.pages, stack.last(), n),
        quiet(visited(s, stack, n, r)),
    ensures
        gained(r, visited(s, stack, n, r), tree_pages(s.pages, stack.last(), n)),
        readable(s.pages, s.hwm, s.freed, stack.last(), n),
        separate(s.pages, stack.last(), n),
    decreases n, 0nat,
{
    reveal(bounded);
    let p = stack.last();
    let page = s.pages.bytes(p);
    let hdr = header_of(page);
    let r1 = verified(s, page, stack, r);
    let r2 = visited(s, stack, n, r);
    assert(s.pages.has(p));
    if hdr.flags == BRANCH_PAGE_FLAG {
        let m = (n - 1) as nat;
        assert(r2 == visited_kids(s, stack, kids_of(page), kids_of(page).len(), m, r1));
        lemma_visited_kids(s, stack, p, hdr.count as nat, m, r1);
        lemma_verified(s, p, stack, r);
        let below = kids_pages(s.pages, p, hdr.count as int, m);
        assert(tree_pages(s.pages, p, n) =~= own_pages(s.pages, p).union(below));
        assert(r2.reach =~= r.reach.union(tree_pages(s.pages, p, n)));
        assert forall|i: int| 0 <= i < hdr.count implies own_pages(s.pages, p).disjoint(
            tree_pages(s.pages, (#[trigger] branch_elem(page, i)).pgid, m),
        ) by {
            assert forall|q: Pgid| tree_pages(s.pages, branch_elem(page, i).pgid, m).contains(q) implies !own_pages(
                s.pages,
                p,
            ).contains(q) by {
                assert(below.contains(q));
                assert(!r1.reach.contains(q));
            }
        }
    } else {
        lemma_verified(s, p, stack, r);
        assert(tree_pages(s.pages, p, n) =~= own_pages(s.pages, p));
    }
}

proof fn lemma_visited_kids(s: Scope, stack: Seq<Pgid>, p: Pgid, k: nat, n: nat, r: Report)
    requires
        k <= header_of(s.pages.bytes(p)).count,
        forall|i: int| 0 <= i < k ==> bounded(s.pages, #[trigger] kids_of(s.pages.bytes(p))[i], n),
        quiet(visited_kids(s, stack, kids_of(s.pages.bytes(p)), k, n, r)),
    ensures
        gained(r, visited_kids(s, stack, kids_of(s.pages.bytes(p)), k, n, r), kids_pages(s.pages, p, k as int, n)),
        forall|i: int|
            0 <= i < k ==> readable(s.pages, s.hwm, s.freed, (#[trigger] branch_elem(s.pages.bytes(p), i)).pgid, n)
                && separate(s.pages, branch_elem(s.pages.bytes(p), i).pgid, n),
        forall|i: int, j: int|
            0 <= i < j < k ==> tree_pages(s.pages, (#[trigger] branch_elem(s.pages.bytes(p), i)).pgid, n).disjoint(
                tree_pages(s.pages, (#[trigger] branch_elem(s.pages.bytes(p), j)).pgid, n),
            ),
    decreases n, k + 1,
{
    let page = s.pages.bytes(p);
    let kids = kids_of(page);
    let r2 = visited_kids(s, stack, kids, k, n, r);
    let all = kids_pages(s.pages, p, k as int, n);
    if k == 0 {
        assert(all =~= Set::empty());
        assert(r.reach.union(all) =~= r.reach);
    } else {
        let before = visited_kids(s, stack, kids, (k - 1) as nat, n, r);
        let kid = kids[k - 1];
        assert(branch_elem(page, k - 1).pgid == kid);
        let next = stack.push(kid);
        assert(next.last() == kid);
        lemma_visited(s, next, n, before);
        lemma_visited_kids(s, stack, p, (k - 1) as nat, n, r);
        let some = kids_pages(s.pages, p, k - 1, n);
        let mine = tree_pages(s.pages, kid, n);
        assert(all =~= some.union(mine)) by {
            assert forall|q: Pgid| all.contains(q) implies some.union(mine).contains(q) by {
                let i = choose|i: int|
                    0 <= i < k && tree_pages(s.pages, (#[trigger] branch_elem(page, i)).pgid, n).contains(q);
                assert(i < k - 1 || i == k - 1);
            }
            assert forall|q: Pgid| some.union(mine).contains(q) implies all.contains(q) by {
                if mine.contains(q) {
                    assert(tree_pages(s.pages, branch_elem(page, k - 1).pgid, n).contains(q));
                }
            }
        }
        assert(r2.reach =~= r.reach.union(all));
        assert forall|i: int, j: int| 0 <= i < j < k implies tree_pages(
            s.pages,
            (#[trigger] branch_elem(page, i)).pgid,
            n,
        ).disjoint(tree_pages(s.pages, (#[trigger] branch_elem(page, j)).pgid, n)) by {
            if j == k - 1 {
                assert forall|q: Pgid| tree_pages(s.pages, branch_elem(page, i).pgid, n).contains(q) implies !mine.contains(
                    q,
                ) by {
                    assert(some.contains(q));
                    assert(before.reach.contains(q));
                }
            }
        }
    }
}

proof fn lemma_ordered_leaf(
    p: Pgid,
    page: Seq<u8>,
    lo: Option<Key>,
    hi: Option<Key>,
    stack: Seq<Pgid>,
    k: nat,
    r: Report,
)
    requires
        quiet(ordered_leaf(p, page, lo, hi, stack, k, r)),
    ensures
        quiet(r),
        ordered_leaf(p, page, lo, hi, stack, k, r).reach == r.reach,
        forall|i: int|
            0 <= i < k ==> (lo is Some ==> !less((#[trigger] leaf_elem(page, i)).key, lo->0)) && (hi is Some ==> less(
                leaf_elem(page, i).key,
                hi->0,
            )),
        forall|i: int| 0 <= i < k - 1 ==> less((#[trigger] leaf_elem(page, i)).key, leaf_elem(page, i + 1).key),
    decreases k,
{
    if k > 0 {
        lemma_ordered_leaf(p, page, lo, hi, stack, (k - 1) as nat, r);
        if k > 1 {
            lemma_total(leaf_elem(page, k - 2).key, leaf_elem(page, k - 1).key);
        }
    }
}

proof fn lemma_ordered(
    pages: Pages,
    p: Pgid,
    lo: Option<Key>,
    hi: Option<Key>,
    stack: Seq<Pgid>,
    n: nat,
    r: Report,
)
    requires
        bounded(pages, p, n),
        quiet(ordered(pages, p, lo, hi, stack, n, r).0),
    ensures
        quiet(r),
        ordered(pages, p, lo, hi, stack, n, r).0.reach == r.reach,
        in_place(pages, p, lo, hi, n),
    decreases n, 0nat,
{
    reveal(bounded);
    let page = pages.bytes(p);
    let hdr = header_of(page);
    assert(pages.has(p));
    if hdr.flags == BRANCH_PAGE_FLAG {
        lemma_ordered_kids(pages, p, lo, hi, stack, hdr.count as nat, (n - 1) as nat, r);
    } else if hdr.flags == LEAF_PAGE_FLAG {
        lemma_ordered_leaf(p, page, lo, hi, stack, hdr.count as nat, r);
    }
}

proof fn lemma_ordered_kids(
    pages: Pages,
    p: Pgid,
    lo: Option<Key>,
    hi: Option<Key>,
    stack: Seq<Pgid>,
    k: nat,
    n: nat,
    r: Report,
)
    requires
        k <= header_of(pages.bytes(p)).count,
        forall|i: int| 0 <= i < k ==> bounded(pages, #[trigger] kids_of(pages.bytes(p))[i], n),
        quiet(ordered_kids(pages, pages.bytes(p), lo, hi, stack, k, n, r).0),
    ensures
        quiet(r),
        ordered_kids(pages, pages.bytes(p), lo, hi, stack, k, n, r).0.reach == r.reach,
        forall|i: int|
            0 <= i < k ==> in_place(
                pages,
                (#[trigger] branch_elem(pages.bytes(p), i)).pgid,
                if i > 0 { Some(branch_elem(pages.bytes(p), i - 1).key) } else { lo },
                if i + 1 < header_of(pages.bytes(p)).count { Some(branch_elem(pages.bytes(p), i + 1).key) } else { hi },
                n,
            ),
    decreases n, k + 1,
{
    let page = pages.bytes(p);
    if k > 0 {
        let before = ordered_kids(pages, page, lo, hi, stack, (k - 1) as nat, n, r);
        let kid = branch_elem(page, k - 1).pgid;
        assert(kids_of(page)[k - 1] == kid);
        lemma_ordered(
            pages,
            kid,
            crate::check::kid_least(page, k - 1, lo),
            crate::check::kid_most(page, k - 1, hi),
            stack.push(kid),
            n,
            before.0,
        );
        lemma_ordered_kids(pages, p, lo, hi, stack, (k - 1) as nat, n, r);
    }
}

proof fn lemma_searched(s: Scope, p: Pgid, n: nat, r: Report)
    requires
        bounded(s.pages, p, n),
        quiet(searched(s, p, n, r)),
    ensures
        gained(r, searched(s, p, n, r), bucket_pages(s.pages, p, n)),
        bucket_intact(s.pages, s.hwm, s.freed, p, n),
    decreases n, 0nat, 2nat,
{
    let r1 = visited(s, seq![p], n, r);
    let r2 = sifted(s, p, n, r);
    let r3 = searched(s, p, n, r);
    lemma_nested(s, p, n, r2);
    assert(seq![p].last() == p);
    lemma_ordered(s.pages, p, None, None, seq![p], n, r1);
    lemma_visited(s, seq![p], n, r);
    let a = tree_pages(s.pages, p, n);
    let b = nested_pages(s.pages, p, n);
    assert(r3.reach =~= r.reach.union(bucket_pages(s.pages, p, n)));
    assert forall|q: Pgid| a.contains(q) implies !b.contains(q) by {
        assert(r2.reach.contains(q));
    }
}

proof fn lemma_nested(s: Scope, p: Pgid, n: nat, r: Report)
    requires
        bounded(s.pages, p, n),
        quiet(nested(s, p, n, r)),
    ensures
        gained(r, nested(s, p, n, r), nested_pages(s.pages, p, n)),
        nested_intact(s.pages, s.hwm, s.freed, p, n),
    decreases n, 0nat, 1nat,
{
    reveal(bounded);
    let page = s.pages.bytes(p);
    let hdr = header_of(page);
    let all = nested_pages(s.pages, p, n);
    assert(s.pages.has(p));
    if hdr.flags == BRANCH_PAGE_FLAG {
        let m = (n - 1) as nat;
        lemma_nested_kids(s, p, hdr.count as nat, m, r);
        assert(all =~= nested_kids_pages(s.pages, p, hdr.count as int, m));
    } else if hdr.flags == LEAF_PAGE_FLAG {
        let m = (n - 1) as nat;
        lemma_nested_items(s, p, hdr.count as nat, m, r);
        assert(all =~= items_pages(s.pages, p, hdr.count as int, m));
    }
}

/// The pages of the buckets nested below the first `k` children of a branch page.
spec fn nested_kids_pages(pages: Pages, p: Pgid, k: int, n: nat) -> Set<Pgid> {
    let page = pages.bytes(p);
    Set::new(
        |q: Pgid|
            exists|i: int|
                0 <= i < k && nested_pages(pages, (#[trigger] branch_elem(page, i)).pgid, n).contains(q),
    )
}

/// The pages of the buckets in the first `k` elements of a leaf page.
spec fn items_pages(pages: Pages, p: Pgid, k: int, n: nat) -> Set<Pgid> {
    let page = pages.bytes(p);
    Set::new(
        |q: Pgid|
            exists|i: int|
                0 <= i < k && #[trigger] holds_bucket(page, i) && bucket_pages(
                    pages,
                    root_of(leaf_elem(page, i)),
                    n,
                ).contains(q),
    )
}

proof fn lemma_nested_kids(s: Scope, p: Pgid, k: nat, n: nat, r: Report)
    requires
        k <= header_of(s.pages.bytes(p)).count,
        forall|i: int| 0 <= i < k ==> bounded(s.pages, #[trigger] kids_of(s.pages.bytes(p))[i], n),
        quiet(nested_kids(s, kids_of(s.pages.bytes(p)), k, n, r)),
    ensures
        gained(r, nested_kids(s, kids_of(s.pages.bytes(p)), k, n, r), nested_kids_pages(s.pages, p, k as int, n)),
        forall|i: int|
            0 <= i < k ==> nested_intact(
                s.pages,
                s.hwm,
                s.freed,
                (#[trigger] branch_elem(s.pages.bytes(p), i)).pgid,
                n,
            ),
        forall|i: int, j: int|
            0 <= i < j < k ==> nested_pages(s.pages, (#[trigger] branch_elem(s.pages.bytes(p), i)).pgid, n).disjoint(
                nested_pages(s.pages, (#[trigger] branch_elem(s.pages.bytes(p), j)).pgid, n),
            ),
    decreases n, k + 1, 0nat,
{
    let page = s.pages.bytes(p);
    let kids = kids_of(page);
    let r2 = nested_kids(s, kids, k, n, r);
    let all = nested_kids_pages(s.pages, p, k as int, n);
    if k == 0 {
        assert(all =~= Set::empty());
        assert(r.reach.union(all) =~= r.reach);
    } else {
        let before = nested_kids(s, kids, (k - 1) as nat, n, r);
        let kid = kids[k - 1];
        assert(branch_elem(page, k - 1).pgid == kid);
        lemma_nested(s, kid, n, before);
        lemma_nested_kids(s, p, (k - 1) as nat, n, r);
        let some = nested_kids_pages(s.pages, p, k - 1, n);
        let mine = nested_pages(s.pages, kid, n);
        assert(all =~= some.union(mine)) by {
            assert forall|q: Pgid| all.contains(q) implies some.union(mine).contains(q) by {
                let i = choose|i: int|
                    0 <= i < k && nested_pages(s.pages, (#[trigger] branch_elem(page, i)).pgid, n).contains(q);
                assert(i < k - 1 || i == k - 1);
            }
            assert forall|q: Pgid| some.union(mine).contains(q) implies all.contains(q) by {
                if mine.contains(q) {
                    assert(nested_pages(s.pages, branch_elem(page, k - 1).pgid, n).contains(q));
                }
            }
        }
        assert(r2.reach =~= r.reach.union(all));
        assert forall|i: int, j: int| 0 <= i < j < k implies nested_pages(
            s.pages,
            (#[trigger] branch_elem(page, i)).pgid,
            n,
        ).disjoint(nested_pages(s.pages, (#[trigger] branch_elem(page, j)).pgid, n)) by {
            if j == k - 1 {
                assert forall|q: Pgid| nested_pages(s.pages, branch_elem(page, i).pgid, n).contains(q) implies !mine.contains(
                    q,
                ) by {
                    assert(some.contains(q));
                    assert(before.reach.contains(q));
                }
            }
        }
    }
}

proof fn lemma_nested_items(s: Scope, p: Pgid, k: nat, n: nat, r: Report)
    requires
        k <= header_of(s.pages.bytes(p)).count,
        forall|i: int|
            0 <= i < k && #[trigger] bucket_root(s.pages.bytes(p), i) != 0 ==> bounded(
                s.pages,
                bucket_root(s.pages.bytes(p), i),
                n,
            ),
        quiet(nested_items(s, s.pages.bytes(p), k, n, r)),
    ensures
        gained(r, nested_items(s, s.pages.bytes(p), k, n, r), items_pages(s.pages, p, k as int, n)),
        forall|i: int|
            0 <= i < k && #[trigger] holds_bucket(s.pages.bytes(p), i) ==> bucket_intact(
                s.pages,
                s.hwm,
                s.freed,
                root_of(leaf_elem(s.pages.bytes(p), i)),
                n,
            ),
        forall|i: int, j: int|
            0 <= i < j < k && #[trigger] holds_bucket(s.pages.bytes(p), i) && #[trigger] holds_bucket(
                s.pages.bytes(p),
                j,
            ) ==> bucket_pages(s.pages, root_of(leaf_elem(s.pages.bytes(p), i)), n).disjoint(
                bucket_pages(s.pages, root_of(leaf_elem(s.pages.bytes(p), j)), n),
            ),
    decreases n, k + 1, 0nat,
{
    let page = s.pages.bytes(p);
    let r2 = nested_items(s, page, k, n, r);
    let all = items_pages(s.pages, p, k as int, n);
    if k == 0 {
        assert(all =~= Set::empty());
        assert(r.reach.union(all) =~= r.reach);
    } else {
        let before = nested_items(s, page, (k - 1) as nat, n, r);
        let some = items_pages(s.pages, p, k - 1, n);
        let root = root_of(leaf_elem(page, k - 1));
        assert((bucket_root(page, k - 1) != 0) == holds_bucket(page, k - 1));
        assert(holds_bucket(page, k - 1) ==> bucket_root(page, k - 1) == root);
        let mine = if holds_bucket(page, k - 1) { bucket_pages(s.pages, root, n) } else { Set::empty() };
        if holds_bucket(page, k - 1) {
            lemma_searched(s, root, n, before);
        }
        lemma_nested_items(s, p, (k - 1) as nat, n, r);
        assert(all =~= some.union(mine)) by {
            assert forall|q: Pgid| all.contains(q) implies some.union(mine).contains(q) by {
                let i = choose|i: int|
                    0 <= i < k && #[trigger] holds_bucket(page, i) && bucket_pages(
                        s.pages,
                        root_of(leaf_elem(page, i)),
                        n,
                    ).contains(q);
                assert(i < k - 1 || i == k - 1);
            }
            assert forall|q: Pgid| some.union(mine).contains(q) implies all.contains(q) by {
                if mine.contains(q) {
                    assert(holds_bucket(page, k - 1));
                }
            }
        }
        assert(r2.reach =~= r.reach.union(all));
        assert forall|i: int, j: int|
            0 <= i < j < k && #[trigger] holds_bucket(page, i) && #[trigger] holds_bucket(page, j) implies bucket_pages(
            s.pages,
            root_of(leaf_elem(page, i)),
            n,
        ).disjoint(bucket_pages(s.pages, root_of(leaf_elem(page, j)), n)) by {
            if j == k - 1 {
                assert forall|q: Pgid| bucket_pages(s.pages, root_of(leaf_elem(page, i)), n).contains(q) implies !mine.contains(
                    q,
                ) by {
                    assert(some.contains(q));
                    assert(before.reach.contains(q));
                }
            }
        }
    }
}

proof fn lemma_none_lost(reach: Set<Pgid>, freed: Set<Pgid>, k: nat)
    requires
        lost(reach, freed, k).len() == 0,
        k <= u64::MAX,
    ensures
        forall|p: Pgid| p < k ==> #[trigger] reach.contains(p) || freed.contains(p),
    decreases k,
{
    if k > 0 {
        lemma_none_lost(reach, freed, (k - 1) as nat);
        assert forall|p: Pgid| p < k implies #[trigger] reach.contains(p) || freed.contains(p) by {
            if p == k - 1 {
                assert(p == (k - 1) as u64);
            }
        }
    }
}

proof fn lemma_none_twice(ids: Seq<Pgid>, k: nat)
    requires
        relisted(ids, k).len() == 0,
        k <= ids.len(),
    ensures
        ids.take(k as int).no_duplicates(),
    decreases k,
{
    if k > 0 {
        lemma_none_twice(ids, (k - 1) as nat);
        let a = ids.take(k - 1);
        let b = ids.take(k as int);
        assert forall|i: int, j: int| 0 <= i < j < b.len() implies b[i] != b[j] by {
            assert(a[i] == b[i]);
            if j == k - 1 {
                assert(a.contains(a[i]));
            } else {
                assert(a[j] == b[j]);
            }
        }
    }
}

// ---------------------------------------------------------------------------------------------
// The laws.

/// A search of the whole database that finds nothing wrong has met every bucket and every page: all
/// trees are in order with their keys, no page is in use twice, none is in use and free, none is listed
/// as free twice, and none is neither in use nor free. So where any of this is not so, something is
/// found.
pub proof fn lemma_nothing_wrong(pages: Pages, meta: Meta, ids: Seq<Pgid>, n: nat)
    requires
        meta.root.root != 0,
        bounded(pages, meta.root.root, n),
        problems(Scope { pages, hwm: meta.pgid, freed: ids.to_set() }, meta, ids, 0, n).len() == 0,
    ensures
        ids.no_duplicates(),
        bucket_intact(pages, meta.pgid, ids.to_set(), meta.root.root, n),
        ({
            let used = bucket_pages(pages, meta.root.root, n);
            let list = meta.freelist;
            let listed = list != PGID_NO_FREELIST && pages.has(list);
            let list_end = list + header_of(pages.bytes(list)).overflow;
            &&& !used.contains(0) && !used.contains(1)
            &&& listed ==> forall|p: Pgid| list <= p <= list_end ==> !(#[trigger] used.contains(p))
            &&& forall|p: Pgid|
                1 < p < meta.pgid && !(listed && list <= p <= list_end) ==> #[trigger] used.contains(p) || ids.contains(p)
        }),
{
    let s = Scope { pages, hwm: meta.pgid, freed: ids.to_set() };
    let root = meta.root.root;
    let r = Report { reach: reserved(pages, meta), errs: relisted(ids, ids.len()), halt: None };
    let r1 = searched(s, root, n, r);
    assert(checked(s, meta, ids, 0, n) == checked_from(s, meta, 0, n, r));
    assert(r1.halt is None);
    let gone = lost(r1.reach, s.freed, meta.pgid as nat);
    assert((r1.errs + gone).len() == 0);
    lemma_searched(s, root, n, r);
    lemma_none_lost(r1.reach, s.freed, meta.pgid as nat);
    lemma_none_twice(ids, ids.len());
    assert(ids.take(ids.len() as int) =~= ids);
    let used = bucket_pages(pages, root, n);
    let list = meta.freelist;
    let listed = list != PGID_NO_FREELIST && pages.has(list);
    let list_end = list + header_of(pages.bytes(list)).overflow;
    assert(r.reach.contains(0) && r.reach.contains(1));
    assert forall|p: Pgid| listed && list <= p <= list_end implies !(#[trigger] used.contains(p)) by {
        assert(r.reach.contains(p));
    }
    assert forall|p: Pgid| 1 < p < meta.pgid && !(listed && list <= p <= list_end) implies #[trigger] used.contains(p)
        || ids.contains(p) by {
        assert(r1.reach.contains(p) || s.freed.contains(p));
    }
}

/// The same of a search that begins at some page, of that page and all that it leads to.
pub proof fn lemma_nothing_wrong_below(pages: Pages, meta: Meta, ids: Seq<Pgid>, page_id: u64, n: nat)
    requires
        page_id != 0,
        bounded(pages, page_id, n),
        problems(Scope { pages, hwm: meta.pgid, freed: ids.to_set() }, meta, ids, page_id, n).len() == 0,
    ensures
        ids.no_duplicates(),
        2 <= page_id < meta.pgid,
        bucket_intact(pages, meta.pgid, ids.to_set(), page_id, n),
{
    let s = Scope { pages, hwm: meta.pgid, freed: ids.to_set() };
    let r = Report { reach: reserved(pages, meta), errs: relisted(ids, ids.len()), halt: None };
    assert(checked(s, meta, ids, page_id, n) == checked_from(s, meta, page_id, n, r));
    assert(2 <= page_id < meta.pgid);
    lemma_searched(s, page_id, n, r);
    lemma_none_twice(ids, ids.len());
    assert(ids.take(ids.len() as int) =~= ids);
}

/// Page `p` leads to page `q`: it is a branch over it, or a leaf with a bucket whose root it is.
pub open spec fn leads_to(pages: Pages, p: Pgid, q: Pgid) -> bool {
    let page = pages.bytes(p);
    let hdr = header_of(page);
    &&& pages.has(p)
    &&& {
        ||| hdr.flags == BRANCH_PAGE_FLAG && exists|i: int|
            0 <= i < hdr.count && (#[trigger] branch_elem(page, i)).pgid == q
        ||| hdr.flags == LEAF_PAGE_FLAG && exists|i: int|
            0 <= i < hdr.count && #[trigger] holds_bucket(page, i) && root_of(leaf_elem(page, i)) == q
    }
}

/// Each page leads to the next one.
pub open spec fn is_way(pages: Pages, path: Seq<Pgid>) -> bool {
    path.len() > 0 && forall|k: int| 0 <= k < path.len() - 1 ==> leads_to(pages, #[trigger] path[k], path[k + 1])
}

/// Something is wrong with page `p`: it cannot be read, has an id beyond the end of the file, is free,
/// is neither a branch nor a leaf, or is a leaf with a key that does not come before the next one.
pub open spec fn spoiled(pages: Pages, hwm: Pgid, freed: Set<Pgid>, p: Pgid) -> bool {
    let page = pages.bytes(p);
    let hdr = header_of(page);
    ||| !pages.has(p)
    ||| hdr.id > hwm
    ||| freed.contains(hdr.id)
    ||| hdr.flags != BRANCH_PAGE_FLAG && hdr.flags != LEAF_PAGE_FLAG
    ||| hdr.flags == LEAF_PAGE_FLAG && exists|i: int|
        0 <= i < hdr.count - 1 && !less((#[trigger] leaf_elem(page, i)).key, leaf_elem(page, i + 1).key)
}

/// What a page leads to is in order if the page is.
proof fn lemma_one_down(
    pages: Pages,
    hwm: Pgid,
    freed: Set<Pgid>,
    p: Pgid,
    q: Pgid,
    m: nat,
    lo: Option<Key>,
    hi: Option<Key>,
) -> (found: (nat, Option<Key>, Option<Key>))
    requires
        leads_to(pages, p, q),
        bounded(pages, p, m),
        readable(pages, hwm, freed, p, m),
        nested_intact(pages, hwm, freed, p, m),
        in_place(pages, p, lo, hi, m),
    ensures
        bounded(pages, q, found.0),
        readable(pages, hwm, freed, q, found.0),
        nested_intact(pages, hwm, freed, q, found.0),
        in_place(pages, q, found.1, found.2, found.0),
{
    let page = pages.bytes(p);
    let hdr = header_of(page);
    assert(m > 0) by {
        reveal(bounded);
    }
    let less_by_one = (m - 1) as nat;
    if hdr.flags == BRANCH_PAGE_FLAG {
        let i = choose|i: int| 0 <= i < hdr.count && (#[trigger] branch_elem(page, i)).pgid == q;
        assert(bounded(pages, q, less_by_one)) by {
            reveal(bounded);
            assert(kids_of(page)[i] == q);
        }
        (
            less_by_one,
            if i > 0 { Some(branch_elem(page, i - 1).key) } else { lo },
            if i + 1 < hdr.count { Some(branch_elem(page, i + 1).key) } else { hi },
        )
    } else {
        let i = choose|i: int|
            0 <= i < hdr.count && #[trigger] holds_bucket(page, i) && root_of(leaf_elem(page, i)) == q;
        assert(bounded(pages, q, less_by_one)) by {
            reveal(bounded);
            assert(holds_bucket(page, i));
            assert(bucket_root(page, i) == q);
        }
        assert(bucket_intact(pages, hwm, freed, q, less_by_one)) by {
            assert(holds_bucket(page, i));
        }
        (less_by_one, None, None)
    }
}

/// What is in order at the beginning of a way is in order all along it.
proof fn lemma_along(pages: Pages, hwm: Pgid, freed: Set<Pgid>, path: Seq<Pgid>, k: int, n: nat) -> (found: (
    nat,
    Option<Key>,
    Option<Key>,
))
    requires
        is_way(pages, path),
        0 <= k < path.len(),
        bounded(pages, path[0], n),
        bucket_intact(pages, hwm, freed, path[0], n),
    ensures
        bounded(pages, path[k], found.0),
        readable(pages, hwm, freed, path[k], found.0),
        nested_intact(pages, hwm, freed, path[k], found.0),
        in_place(pages, path[k], found.1, found.2, found.0),
    decreases k,
{
    if k == 0 {
        (n, None, None)
    } else {
        let (m, lo, hi) = lemma_along(pages, hwm, freed, path, k - 1, n);
        assert(leads_to(pages, path[k - 1], path[k - 1 + 1]));
        lemma_one_down(pages, hwm, freed, path[k - 1], path[k], m, lo, hi)
    }
}

/// Whatever page the root leads to, through branches and nested buckets: if something is wrong with
/// it, a search of the whole database finds something.
pub proof fn lemma_spoiled_found(pages: Pages, meta: Meta, ids: Seq<Pgid>, n: nat, path: Seq<Pgid>)
    requires
        meta.root.root != 0,
        bounded(pages, meta.root.root, n),
        is_way(pages, path),
        path[0] == meta.root.root,
        spoiled(pages, meta.pgid, ids.to_set(), path.last()),
    ensures
        problems(Scope { pages, hwm: meta.pgid, freed: ids.to_set() }, meta, ids, 0, n).len() > 0,
{
    if problems(Scope { pages, hwm: meta.pgid, freed: ids.to_set() }, meta, ids, 0, n).len() == 0 {
        lemma_nothing_wrong(pages, meta, ids, n);
        let (m, lo, hi) = lemma_along(pages, meta.pgid, ids.to_set(), path, path.len() - 1, n);
    }
}

/// A key in a leaf that the key of the next child of a branch does not come behind, or that comes
/// before the key of the child before, is found.
pub proof fn lemma_misplaced_found(
    pages: Pages,
    meta: Meta,
    ids: Seq<Pgid>,
    n: nat,
    path: Seq<Pgid>,
    i: int,
    j: int,
)
    requires
        meta.root.root != 0,
        bounded(pages, meta.root.root, n),
        is_way(pages, path),
        path[0] == meta.root.root,
        ({
            let page = pages.bytes(path.last());
            let leaf = pages.bytes(branch_elem(page, i).pgid);
            let key = leaf_elem(leaf, j).key;
            &&& pages.has(path.last())
            &&& header_of(page).flags == BRANCH_PAGE_FLAG
            &&& 0 <= i < header_of(page).count
            &&& header_of(leaf).flags == LEAF_PAGE_FLAG
            &&& 0 <= j < header_of(leaf).count
            &&& i + 1 < header_of(page).count && !less(key, branch_elem(page, i + 1).key) || i > 0 && less(
                key,
                branch_elem(page, i - 1).key,
            )
        }),
    ensures
        problems(Scope { pages, hwm: meta.pgid, freed: ids.to_set() }, meta, ids, 0, n).len() > 0,
{
    if problems(Scope { pages, hwm: meta.pgid, freed: ids.to_set() }, meta, ids, 0, n).len() == 0 {
        lemma_nothing_wrong(pages, meta, ids, n);
        let (m, lo, hi) = lemma_along(pages, meta.pgid, ids.to_set(), path, path.len() - 1, n);
        reveal(bounded);
        let page = pages.bytes(path.last());
        let kid = branch_elem(page, i).pgid;
        assert(m > 0);
        assert(in_place(
            pages,
            kid,
            if i > 0 { Some(branch_elem(page, i - 1).key) } else { lo },
            if i + 1 < header_of(page).count { Some(branch_elem(page, i + 1).key) } else { hi },
            (m - 1) as nat,
        ));
        let leaf = pages.bytes(kid);
        assert(leaf_elem(leaf, j).key == leaf_elem(leaf, j).key);
    }
}

} // verus!
