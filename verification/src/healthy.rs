//! A search for damage finds nothing in a database that is not damaged.
use vstd::prelude::*;
use crate::check::{bounded, bounded_root, bucket_root, kid_least, kid_most, kids_of, lost, met, nested, nested_items, nested_kids, ordered, ordered_kids, ordered_leaf, problems, relisted, reserved, searched, sifted, verified, visited, visited_kids, Report, Scope, Text};
use crate::freelist::FreelistV;
use crate::fresh::{fresh, fresh_base, lemma_fresh_stored};
use crate::inode::{branch_elem, branch_ok, decode, elem_ok, leaf_elem, leaf_ok, InodeV};
use crate::ledger::listed;
use crate::lifecycle::unreadable;
use crate::node::{Base, Pages};
use crate::order::{group_order, less, less_eq};
use crate::page::{header_of, BRANCH_PAGE_FLAG, LEAF_PAGE_FLAG, Meta, Pgid};
use crate::plan::CommitPlan;
use crate::recovery::{lemma_new_stored, page_at, written_out};
use crate::snapshot::{spent, stored};
use crate::tree::{cat_subs, in_order, key_ok, kid_hi, kid_lo, kids_use, lemma_refs_split, lemma_subs_add, lemma_wf_branch, subs_ref, Key, Tree};
use crate::tx::{list_known, list_own, total, TxInner};
use crate::writer::{page_size_ok, spare};

verus! {

/// What is known of the pages that are looked through.
spec fn sane(s: Scope, base: Base) -> bool {
    &&& base.ok()
    &&& s.pages.backs(base)
    &&& s.pages.page_size >= 16
    &&& forall|q: Pgid| #[trigger] base.forest.contains_key(q) ==> base.old.contains(q)
}

/// A page that is there is what the tree says.
proof fn lemma_there(s: Scope, base: Base, p: Pgid)
    requires
        sane(s, base),
        base.old.contains(p),
    ensures
        unreadable(s.pages, p) is None,
        s.pages.bytes(p) == base.store[p],
        base.page_ok(p),
        base.kids_old(p),
        ({
            let page = base.store[p];
            let t = base.forest[p];
            &&& header_of(page).id == p
            &&& header_of(page).overflow == t.over()
            &&& t is Leaf <==> header_of(page).flags == LEAF_PAGE_FLAG
            &&& t is Branch <==> header_of(page).flags == BRANCH_PAGE_FLAG
            &&& t matches Tree::Branch { kids, keys, .. } ==> {
                &&& kids_of(page).len() == kids.len()
                &&& keys.len() == kids.len()
                &&& header_of(page).count == kids.len()
                &&& forall|i: int|
                    0 <= i < kids.len() ==> {
                        &&& base.old.contains(#[trigger] kids_of(page)[i])
                        &&& base.forest[kids_of(page)[i]] == kids[i]
                        &&& branch_elem(page, i).key == keys[i]
                        &&& branch_elem(page, i).pgid == kids_of(page)[i]
                        &&& branch_ok(page, i)
                    }
            }
            &&& t matches Tree::Leaf { items, subs, .. } ==> {
                &&& header_of(page).count == items.len()
                &&& subs.len() == items.len()
                &&& forall|i: int|
                    0 <= i < items.len() ==> {
                        &&& #[trigger] leaf_elem(page, i) == items[i]
                        &&& leaf_ok(page, i)
                        &&& bucket_root(page, i) != 0 ==> base.old.contains(bucket_root(page, i)) && subs[i] == Some(
                            base.forest[bucket_root(page, i)],
                        ) && base.forest[bucket_root(page, i)].wf(None, None, true)
                        &&& bucket_root(page, i) == 0 ==> subs[i] is None
                    }
            }
        }),
{
    let page = base.store[p];
    let t = base.forest[p];
    assert(base.page_ok(p));
    assert(base.kids_old(p));
    match t {
        Tree::Branch { kids, keys, .. } => {
            assert forall|i: int| 0 <= i < kids.len() implies {
                &&& base.old.contains(#[trigger] kids_of(page)[i])
                &&& base.forest[kids_of(page)[i]] == kids[i]
                &&& branch_elem(page, i).key == keys[i]
                &&& branch_elem(page, i).pgid == kids_of(page)[i]
                &&& branch_ok(page, i)
            } by {
                assert(elem_ok(page, i));
                assert(decode(page)[i] == branch_elem(page, i));
                assert(kids[i] == base.forest[decode(page)[i].pgid]);
                assert(keys[i] == decode(page)[i].key);
                assert(base.page_ok(decode(page)[i].pgid));
                assert(base.old.contains(kids[i].pgid()));
            }
        },
        Tree::Leaf { items, subs, .. } => {
            assert forall|i: int| 0 <= i < items.len() implies {
                &&& #[trigger] leaf_elem(page, i) == items[i]
                &&& leaf_ok(page, i)
                &&& bucket_root(page, i) != 0 ==> base.old.contains(bucket_root(page, i)) && subs[i] == Some(
                    base.forest[bucket_root(page, i)],
                ) && base.forest[bucket_root(page, i)].wf(None, None, true)
                &&& bucket_root(page, i) == 0 ==> subs[i] is None
            } by {
                assert(elem_ok(page, i));
                assert(decode(page)[i] == leaf_elem(page, i));
                assert(base.item_ok(items[i]));
                assert(subs[i] == base.sub(items[i]));
            }
        },
    }
}

// ---------------------------------------------------------------------------------------------
// How deep the search goes.

/// A search that needs no more than `n` steps needs no more than `m`.
proof fn lemma_bounded_more(pages: Pages, p: Pgid, n: nat, m: nat)
    requires
        bounded(pages, p, n),
        n <= m,
    ensures
        bounded(pages, p, m),
    decreases n,
{
    reveal(bounded);
    if pages.has(p) {
        let page = pages.bytes(p);
        let hdr = header_of(page);
        if hdr.flags == BRANCH_PAGE_FLAG {
            assert forall|i: int| 0 <= i < hdr.count implies bounded(pages, #[trigger] kids_of(page)[i], (m - 1) as nat) by {
                lemma_bounded_more(pages, kids_of(page)[i], (n - 1) as nat, (m - 1) as nat);
            }
        }
        if hdr.flags == LEAF_PAGE_FLAG {
            assert forall|i: int| 0 <= i < hdr.count && #[trigger] bucket_root(page, i) != 0 implies bounded(
                pages,
                bucket_root(page, i),
                (m - 1) as nat,
            ) by {
                lemma_bounded_more(pages, bucket_root(page, i), (n - 1) as nat, (m - 1) as nat);
            }
        }
    }
}

/// More than the number of pages that lie one below another.
spec fn levels(t: Tree) -> nat
    decreases t,
{
    match t {
        Tree::Leaf { subs, .. } => 1 + subs_levels(subs),
        Tree::Branch { kids, .. } => 1 + kids_levels(kids),
    }
}

spec fn kids_levels(kids: Seq<Tree>) -> nat
    decreases kids,
{
    if kids.len() == 0 {
        0
    } else {
        kids_levels(kids.drop_last()) + levels(kids.last())
    }
}

spec fn subs_levels(subs: Seq<Option<Tree>>) -> nat
    decreases subs,
{
    if subs.len() == 0 {
        0
    } else {
        subs_levels(subs.drop_last()) + (match subs.last() {
            Some(t) => levels(t),
            None => 0,
        })
    }
}

proof fn lemma_kid_levels(kids: Seq<Tree>, i: int)
    requires
        0 <= i < kids.len(),
    ensures
        levels(kids[i]) <= kids_levels(kids),
    decreases kids.len(),
{
    if i < kids.len() - 1 {
        lemma_kid_levels(kids.drop_last(), i);
    }
}

proof fn lemma_sub_levels(subs: Seq<Option<Tree>>, i: int)
    requires
        0 <= i < subs.len(),
        subs[i] is Some,
    ensures
        levels(subs[i]->0) <= subs_levels(subs),
    decreases subs.len(),
{
    if i < subs.len() - 1 {
        lemma_sub_levels(subs.drop_last(), i);
    }
}

/// What is below a page that is there can be gone through.
proof fn lemma_levels(s: Scope, base: Base, p: Pgid)
    requires
        sane(s, base),
        base.old.contains(p),
    ensures
        bounded(s.pages, p, levels(base.forest[p])),
    decreases base.forest[p],
{
    reveal(bounded);
    lemma_there(s, base, p);
    let t = base.forest[p];
    let page = base.store[p];
    let n = (levels(t) - 1) as nat;
    match t {
        Tree::Branch { kids, .. } => {
            assert forall|i: int| 0 <= i < kids.len() implies #[trigger] branch_ok(page, i) by {
                assert(base.old.contains(kids_of(page)[i]));
            }
            assert forall|i: int| 0 <= i < kids.len() implies bounded(s.pages, #[trigger] kids_of(page)[i], n) by {
                lemma_kid_levels(kids, i);
                lemma_levels(s, base, kids_of(page)[i]);
                lemma_bounded_more(s.pages, kids_of(page)[i], levels(kids[i]), n);
            }
        },
        Tree::Leaf { items, subs, .. } => {
            assert forall|i: int| 0 <= i < items.len() implies #[trigger] leaf_ok(page, i) by {
                assert(leaf_elem(page, i) == items[i]);
            }
            assert forall|i: int| 0 <= i < items.len() && #[trigger] bucket_root(page, i) != 0 implies bounded(
                s.pages,
                bucket_root(page, i),
                n,
            ) by {
                assert(leaf_elem(page, i) == items[i]);
                assert(decreases_to!(t => t->subs));
                assert(decreases_to!(t->subs => t->subs[i]));
                assert(decreases_to!(t->subs[i] => t->subs[i]->0));
                lemma_sub_levels(subs, i);
                lemma_levels(s, base, bucket_root(page, i));
                lemma_bounded_more(s.pages, bucket_root(page, i), levels(subs[i]->0), n);
            }
        },
    }
}

/// A database that is stored can be looked through.
pub proof fn lemma_stored_bounded(pages: Pages, meta: Meta, base: Base)
    requires
        stored(pages, meta, base),
    ensures
        exists|n: nat| bounded_root(pages, meta.root.root, n),
{
    let s = Scope { pages, hwm: meta.pgid, freed: Set::empty() };
    lemma_levels(s, base, meta.root.root);
    assert(bounded_root(pages, meta.root.root, levels(base.forest[meta.root.root])));
}

// ---------------------------------------------------------------------------------------------
// Meeting pages.

/// The pages from `p` on, `k` of them.
spec fn run_of(p: Pgid, k: nat) -> Set<Pgid> {
    Set::new(|q: Pgid| p <= q < p + k)
}

/// The pages of one bucket.
spec fn pages_of(t: Tree) -> Set<Pgid> {
    Set::new(|q: Pgid| t.uses(q) > 0)
}

spec fn pages_of_kids(kids: Seq<Tree>) -> Set<Pgid> {
    Set::new(|q: Pgid| kids_use(kids, q) > 0)
}

/// More pages were met, and nothing else.
spec fn reaching(r: Report, more: Set<Pgid>) -> Report {
    Report { reach: r.reach.union(more), ..r }
}

/// None of the pages is free, all are in bounds, and none was met.
spec fn new_to(s: Scope, r: Report, more: Set<Pgid>) -> bool {
    &&& r.halt is None
    &&& forall|q: Pgid| #[trigger] more.contains(q) ==> !s.freed.contains(q) && q < s.hwm && !r.reach.contains(q)
}

proof fn lemma_met(r: Report, p: Pgid, k: nat, stack: Seq<Pgid>)
    requires
        p + k <= u64::MAX,
        forall|q: Pgid| p <= q < p + k ==> !(#[trigger] r.reach.contains(q)),
    ensures
        met(r, p, k, stack) == reaching(r, run_of(p, k)),
    decreases k,
{
    if k == 0 {
        assert(reaching(r, run_of(p, k)) =~= r);
    } else {
        lemma_met(r, p, (k - 1) as nat, stack);
        let q = (p + k - 1) as u64;
        assert(run_of(p, k) =~= run_of(p, (k - 1) as nat).insert(q));
        assert(!r.reach.contains(q));
        assert(met(r, p, k, stack) =~= reaching(r, run_of(p, k)));
    }
}

/// A page that is there is met with all its overflow, and nothing is wrong with it.
proof fn lemma_verified(s: Scope, base: Base, stack: Seq<Pgid>, r: Report)
    requires
        sane(s, base),
        stack.len() > 0,
        base.old.contains(stack.last()),
        new_to(s, r, pages_of(base.forest[stack.last()])),
    ensures
        verified(s, base.store[stack.last()], stack, r) == reaching(
            r,
            run_of(stack.last(), (base.forest[stack.last()].over() + 1) as nat),
        ),
{
    let p = stack.last();
    let t = base.forest[p];
    lemma_there(s, base, p);
    assert(t.pgid() == p);
    let own = run_of(p, (t.over() + 1) as nat);
    assert forall|q: Pgid| #[trigger] own.contains(q) implies pages_of(t).contains(q) by {
        assert(t.own(q) == 1);
    }
    assert(own.contains(p));
    assert(pages_of(t).contains(p));
    assert forall|q: Pgid| p <= q < p + t.over() + 1 implies !(#[trigger] r.reach.contains(q)) by {
        assert(own.contains(q));
    }
    lemma_met(r, p, (t.over() + 1) as nat, stack);
}

proof fn lemma_own_pages(t: Tree)
    requires
        t.pgid() != 0,
    ensures
        forall|q: Pgid| #[trigger] run_of(t.pgid(), (t.over() + 1) as nat).contains(q) <==> t.own(q) > 0,
        t is Leaf ==> pages_of(t) == run_of(t.pgid(), (t.over() + 1) as nat),
        t is Branch ==> pages_of(t) == run_of(t.pgid(), (t.over() + 1) as nat).union(pages_of_kids(t->kids)),
{
    match t {
        Tree::Leaf { .. } => {
            assert(pages_of(t) =~= run_of(t.pgid(), (t.over() + 1) as nat));
        },
        Tree::Branch { kids, .. } => {
            assert forall|q: Pgid| #[trigger] pages_of(t).contains(q) <==> t.own(q) + kids_use(kids, q) > 0 by {}
            assert(pages_of(t) =~= run_of(t.pgid(), (t.over() + 1) as nat).union(pages_of_kids(kids)));
        },
    }
}

proof fn lemma_visited(s: Scope, base: Base, stack: Seq<Pgid>, n: nat, r: Report)
    requires
        sane(s, base),
        stack.len() > 0,
        base.old.contains(stack.last()),
        bounded(s.pages, stack.last(), n),
        new_to(s, r, pages_of(base.forest[stack.last()])),
        forall|q: Pgid| #[trigger] base.forest[stack.last()].uses(q) <= 1,
    ensures
        visited(s, stack, n, r) == reaching(r, pages_of(base.forest[stack.last()])),
    decreases base.forest[stack.last()], 0nat,
{
    let p = stack.last();
    let t = base.forest[p];
    let page = base.store[p];
    lemma_there(s, base, p);
    lemma_own_pages(t);
    lemma_verified(s, base, stack, r);
    assert(t.pgid() == p);
    let own = run_of(p, (t.over() + 1) as nat);
    let r1 = reaching(r, own);
    if t is Branch {
        let kids = t->kids;
        assert(n > 0 && forall|i: int| 0 <= i < kids.len() ==> bounded(s.pages, #[trigger] kids_of(page)[i], (n - 1) as nat)) by {
            reveal(bounded);
        }
        assert forall|q: Pgid| #[trigger] kids_use(kids, q) <= 1 && (kids_use(kids, q) > 0 ==> !own.contains(q)) by {
            assert(t.uses(q) == t.own(q) + kids_use(kids, q));
            assert(t.uses(q) <= 1);
        }
        assert(new_to(s, r1, pages_of_kids(kids))) by {
            assert forall|q: Pgid| #[trigger] pages_of_kids(kids).contains(q) implies !s.freed.contains(q) && q < s.hwm
                && !r1.reach.contains(q) by {
                assert(kids_use(kids, q) > 0);
                assert(pages_of(t).contains(q));
            }
        }
        assert(kids.take(kids.len() as int) =~= kids);
        lemma_visited_kids(s, base, stack, p, kids.len() as int, (n - 1) as nat, r1);
        assert(reaching(r1, pages_of_kids(kids)) =~= reaching(r, pages_of(t)));
    }
}

proof fn lemma_visited_kids(s: Scope, base: Base, stack: Seq<Pgid>, p: Pgid, k: int, n: nat, r: Report)
    requires
        sane(s, base),
        base.old.contains(p),
        base.forest[p] is Branch,
        0 <= k <= base.forest[p]->kids.len(),
        forall|i: int|
            0 <= i < base.forest[p]->kids.len() ==> bounded(s.pages, #[trigger] kids_of(base.store[p])[i], n),
        new_to(s, r, pages_of_kids(base.forest[p]->kids.take(k))),
        forall|q: Pgid| #[trigger] kids_use(base.forest[p]->kids.take(k), q) <= 1,
    ensures
        visited_kids(s, stack, kids_of(base.store[p]), k as nat, n, r) == reaching(
            r,
            pages_of_kids(base.forest[p]->kids.take(k)),
        ),
    decreases base.forest[p]->kids, k,
{
    lemma_there(s, base, p);
    let kids = base.forest[p]->kids;
    let page = base.store[p];
    if k == 0 {
        assert(kids.take(0) =~= Seq::<Tree>::empty());
        assert(reaching(r, pages_of_kids(kids.take(0))) =~= r);
    } else {
        let some = kids.take(k - 1);
        let last = kids[k - 1];
        assert(kids.take(k).drop_last() =~= some);
        assert(kids.take(k).last() == last);
        assert forall|q: Pgid| #[trigger] kids_use(some, q) <= 1 by {
            assert(kids_use(kids.take(k), q) <= 1);
        }
        assert(new_to(s, r, pages_of_kids(some))) by {
            assert forall|q: Pgid| #[trigger] pages_of_kids(some).contains(q) implies !s.freed.contains(q) && q < s.hwm
                && !r.reach.contains(q) by {
                assert(pages_of_kids(kids.take(k)).contains(q));
            }
        }
        lemma_visited_kids(s, base, stack, p, k - 1, n, r);
        let before = reaching(r, pages_of_kids(some));
        let child = kids_of(page)[k - 1];
        let next = stack.push(child);
        assert(next.last() == child);
        assert(base.forest[child] == last);
        assert forall|q: Pgid| #[trigger] last.uses(q) <= 1 by {
            assert(kids_use(kids.take(k), q) <= 1);
        }
        assert(new_to(s, before, pages_of(last))) by {
            assert forall|q: Pgid| #[trigger] pages_of(last).contains(q) implies !s.freed.contains(q) && q < s.hwm
                && !before.reach.contains(q) by {
                assert(kids_use(kids.take(k), q) == kids_use(some, q) + last.uses(q));
                assert(kids_use(kids.take(k), q) <= 1);
                assert(pages_of_kids(kids.take(k)).contains(q));
            }
        }
        assert(decreases_to!(kids => kids[k - 1]));
        lemma_visited(s, base, next, n, before);
        assert(reaching(before, pages_of(last)) =~= reaching(r, pages_of_kids(kids.take(k)))) by {
            assert(pages_of_kids(some).union(pages_of(last)) =~= pages_of_kids(kids.take(k)));
        }
    }
}

// ---------------------------------------------------------------------------------------------
// The order of keys.

/// A lower bound that is asked for is not above one that holds.
spec fn not_above(asked: Option<Key>, holds: Option<Key>) -> bool {
    asked is Some ==> holds is Some && less_eq(asked->0, holds->0)
}

proof fn lemma_ordered_leaf(
    p: Pgid,
    page: Seq<u8>,
    items: Seq<InodeV>,
    asked: Option<Key>,
    lo: Option<Key>,
    hi: Option<Key>,
    stack: Seq<Pgid>,
    k: nat,
    r: Report,
)
    requires
        in_order(items),
        k <= items.len(),
        forall|i: int| 0 <= i < items.len() ==> #[trigger] leaf_elem(page, i) == items[i],
        forall|i: int| 0 <= i < items.len() ==> key_ok(#[trigger] items[i].key, lo, hi),
        not_above(asked, lo),
    ensures
        ordered_leaf(p, page, asked, hi, stack, k, r) == r,
    decreases k,
{
    broadcast use group_order;

    if k > 0 {
        lemma_ordered_leaf(p, page, items, asked, lo, hi, stack, (k - 1) as nat, r);
        let key = leaf_elem(page, k - 1).key;
        assert(leaf_elem(page, k - 1) == items[k - 1]);
        assert(key_ok(items[k - 1].key, lo, hi));
        if k > 1 {
            assert(leaf_elem(page, k - 2) == items[k - 2]);
            assert(less(items[k - 2].key, items[k - 1].key));
        }
    }
}

proof fn lemma_ordered(
    s: Scope,
    base: Base,
    p: Pgid,
    asked: Option<Key>,
    lo: Option<Key>,
    hi: Option<Key>,
    least: int,
    stack: Seq<Pgid>,
    n: nat,
    r: Report,
)
    requires
        sane(s, base),
        base.old.contains(p),
        base.forest[p].wf_from(lo, hi, true, least),
        not_above(asked, lo),
        r.halt is None,
    ensures
        ordered(s.pages, p, asked, hi, stack, n, r).0 == r,
    decreases base.forest[p], 0nat,
{
    lemma_there(s, base, p);
    let t = base.forest[p];
    let page = base.store[p];
    match t {
        Tree::Leaf { items, .. } => {
            reveal(Tree::wf_from);
            lemma_ordered_leaf(p, page, items, asked, lo, hi, stack, header_of(page).count as nat, r);
        },
        Tree::Branch { kids, .. } => {
            if n > 0 {
                lemma_ordered_kids(s, base, p, asked, lo, hi, least, stack, kids.len(), (n - 1) as nat, r);
            }
        },
    }
}

proof fn lemma_ordered_kids(
    s: Scope,
    base: Base,
    p: Pgid,
    asked: Option<Key>,
    lo: Option<Key>,
    hi: Option<Key>,
    least: int,
    stack: Seq<Pgid>,
    k: nat,
    n: nat,
    r: Report,
)
    requires
        sane(s, base),
        base.old.contains(p),
        base.forest[p] is Branch,
        base.forest[p].wf_from(lo, hi, true, least),
        not_above(asked, lo),
        k <= base.forest[p]->kids.len(),
        r.halt is None,
    ensures
        ordered_kids(s.pages, base.store[p], asked, hi, stack, k, n, r).0 == r,
    decreases base.forest[p]->kids, k,
{
    broadcast use group_order;

    lemma_there(s, base, p);
    let t = base.forest[p];
    let page = base.store[p];
    let kids = t->kids;
    let keys = t->keys;
    if k > 0 {
        lemma_ordered_kids(s, base, p, asked, lo, hi, least, stack, (k - 1) as nat, n, r);
        lemma_wf_branch(t, lo, hi, true, least);
        let i = k - 1;
        let child = kids_of(page)[i];
        assert(branch_elem(page, i).pgid == child);
        assert(base.forest[child] == kids[i]);
        assert(kids[i].wf_from(kid_lo(keys, i, lo), kid_hi(keys, i, hi), true, 2));
        assert(kid_most(page, i, hi) == kid_hi(keys, i, hi)) by {
            if i + 1 < kids.len() {
                assert(base.old.contains(kids_of(page)[i + 1]));
            }
        }
        assert(not_above(kid_least(page, i, asked), kid_lo(keys, i, lo))) by {
            if i > 0 {
                assert(base.old.contains(kids_of(page)[i - 1]));
                assert(less(keys[i - 1], keys[i]));
            } else if asked is Some {
                reveal(Tree::wf_from);
                assert(key_ok(keys[0], lo, hi));
                assert(less_eq(asked->0, keys[0]));
            }
        }
        assert(decreases_to!(kids => kids[i]));
        lemma_ordered(
            s,
            base,
            child,
            kid_least(page, i, asked),
            kid_lo(keys, i, lo),
            kid_hi(keys, i, hi),
            2,
            stack.push(child),
            n,
            r,
        );
    }
}

// ---------------------------------------------------------------------------------------------
// Buckets in buckets.

/// The pages of a tree and of all buckets in it.
spec fn all_of(t: Tree) -> Set<Pgid> {
    Set::new(|q: Pgid| t.refs(q) > 0)
}

/// The pages of some buckets, and of all buckets in them.
spec fn all_in(subs: Seq<Option<Tree>>) -> Set<Pgid> {
    Set::new(|q: Pgid| subs_ref(subs, q) > 0)
}

/// Pages that are part of others are as new as these.
proof fn lemma_fewer(s: Scope, r: Report, more: Set<Pgid>, some: Set<Pgid>)
    requires
        new_to(s, r, more),
        forall|q: Pgid| #[trigger] some.contains(q) ==> more.contains(q),
    ensures
        new_to(s, r, some),
{
}

/// What else is met is as new after some pages were met that it has none of.
proof fn lemma_rest(s: Scope, r: Report, some: Set<Pgid>, rest: Set<Pgid>)
    requires
        new_to(s, r, rest),
        forall|q: Pgid| #[trigger] rest.contains(q) ==> !some.contains(q),
    ensures
        new_to(s, reaching(r, some), rest),
{
}

proof fn lemma_searched(s: Scope, base: Base, p: Pgid, n: nat, r: Report)
    requires
        sane(s, base),
        base.old.contains(p),
        base.forest[p].wf(None, None, true),
        bounded(s.pages, p, n),
        new_to(s, r, all_of(base.forest[p])),
        forall|q: Pgid| #[trigger] base.forest[p].refs(q) <= 1,
    ensures
        searched(s, p, n, r) == reaching(r, all_of(base.forest[p])),
    decreases base.forest[p], 2nat,
{
    let t = base.forest[p];
    assert forall|q: Pgid| #[trigger] t.refs(q) == t.uses(q) + subs_ref(t.subs(), q) by {
        lemma_refs_split(t, q);
    }
    assert forall|q: Pgid| #[trigger] t.uses(q) <= 1 && (t.uses(q) > 0 ==> all_of(t).contains(q)) by {
        assert(t.refs(q) <= 1);
    }
    assert forall|q: Pgid| #[trigger]
        subs_ref(t.subs(), q) <= 1 && (subs_ref(t.subs(), q) > 0 ==> all_of(t).contains(q) && !pages_of(t).contains(q)) by {
        assert(t.refs(q) <= 1);
    }
    lemma_fewer(s, r, all_of(t), pages_of(t));
    lemma_fewer(s, r, all_of(t), all_in(t.subs()));
    assert(seq![p].last() == p);
    lemma_visited(s, base, seq![p], n, r);
    let r1 = reaching(r, pages_of(t));
    lemma_ordered(s, base, p, None, None, None, 2, seq![p], n, r1);
    assert(sifted(s, p, n, r) == r1);
    lemma_rest(s, r, pages_of(t), all_in(t.subs()));
    lemma_nested(s, base, p, n, r1);
    assert(pages_of(t).union(all_in(t.subs())) =~= all_of(t)) by {
        assert forall|q: Pgid| pages_of(t).union(all_in(t.subs())).contains(q) <==> #[trigger] all_of(t).contains(q) by {
            assert(t.refs(q) == t.uses(q) + subs_ref(t.subs(), q));
        }
    }
    assert(reaching(r1, all_in(t.subs())) =~= reaching(r, all_of(t)));
}

proof fn lemma_nested(s: Scope, base: Base, p: Pgid, n: nat, r: Report)
    requires
        sane(s, base),
        base.old.contains(p),
        bounded(s.pages, p, n),
        new_to(s, r, all_in(base.forest[p].subs())),
        forall|q: Pgid| #[trigger] subs_ref(base.forest[p].subs(), q) <= 1,
    ensures
        nested(s, p, n, r) == reaching(r, all_in(base.forest[p].subs())),
    decreases base.forest[p], 1nat,
{
    let t = base.forest[p];
    let page = base.store[p];
    lemma_there(s, base, p);
    assert(n > 0) by {
        reveal(bounded);
    }
    match t {
        Tree::Leaf { items, subs, .. } => {
            assert(forall|i: int|
                0 <= i < items.len() && #[trigger] bucket_root(page, i) != 0 ==> bounded(
                    s.pages,
                    bucket_root(page, i),
                    (n - 1) as nat,
                )) by {
                reveal(bounded);
            }
            assert(subs.take(items.len() as int) =~= subs);
            lemma_nested_items(s, base, p, items.len() as int, (n - 1) as nat, r);
        },
        Tree::Branch { kids, .. } => {
            assert(forall|i: int| 0 <= i < kids.len() ==> bounded(s.pages, #[trigger] kids_of(page)[i], (n - 1) as nat)) by {
                reveal(bounded);
            }
            assert(kids.take(kids.len() as int) =~= kids);
            lemma_nested_kids(s, base, p, kids.len() as int, (n - 1) as nat, r);
        },
    }
}

proof fn lemma_nested_kids(s: Scope, base: Base, p: Pgid, k: int, n: nat, r: Report)
    requires
        sane(s, base),
        base.old.contains(p),
        base.forest[p] is Branch,
        0 <= k <= base.forest[p]->kids.len(),
        forall|i: int|
            0 <= i < base.forest[p]->kids.len() ==> bounded(s.pages, #[trigger] kids_of(base.store[p])[i], n),
        new_to(s, r, all_in(cat_subs(base.forest[p]->kids.take(k)))),
        forall|q: Pgid| #[trigger] subs_ref(cat_subs(base.forest[p]->kids.take(k)), q) <= 1,
    ensures
        nested_kids(s, kids_of(base.store[p]), k as nat, n, r) == reaching(
            r,
            all_in(cat_subs(base.forest[p]->kids.take(k))),
        ),
    decreases base.forest[p]->kids, k,
{
    lemma_there(s, base, p);
    let kids = base.forest[p]->kids;
    if k == 0 {
        assert(kids.take(0) =~= Seq::<Tree>::empty());
        assert(reaching(r, all_in(cat_subs(kids.take(0)))) =~= r);
    } else {
        let some = cat_subs(kids.take(k - 1));
        let last = kids[k - 1].subs();
        assert(kids.take(k).drop_last() =~= kids.take(k - 1));
        assert(kids.take(k).last() == kids[k - 1]);
        let all = cat_subs(kids.take(k));
        assert(all == some + last);
        assert forall|q: Pgid| #[trigger] subs_ref(all, q) == subs_ref(some, q) + subs_ref(last, q) by {
            lemma_subs_add(some, last, q);
        }
        assert forall|q: Pgid| #[trigger] subs_ref(some, q) <= 1 && (subs_ref(some, q) > 0 ==> all_in(all).contains(q)) by {
            assert(subs_ref(all, q) <= 1);
        }
        assert forall|q: Pgid| #[trigger]
            subs_ref(last, q) <= 1 && (subs_ref(last, q) > 0 ==> all_in(all).contains(q) && !all_in(some).contains(q)) by {
            assert(subs_ref(all, q) <= 1);
        }
        lemma_fewer(s, r, all_in(all), all_in(some));
        lemma_fewer(s, r, all_in(all), all_in(last));
        lemma_nested_kids(s, base, p, k - 1, n, r);
        lemma_rest(s, r, all_in(some), all_in(last));
        let child = kids_of(base.store[p])[k - 1];
        assert(base.forest[child] == kids[k - 1]);
        assert(decreases_to!(kids => kids[k - 1]));
        lemma_nested(s, base, child, n, reaching(r, all_in(some)));
        assert(all_in(some).union(all_in(last)) =~= all_in(all)) by {
            assert forall|q: Pgid| all_in(some).union(all_in(last)).contains(q) <==> #[trigger] all_in(all).contains(q) by {
                assert(subs_ref(all, q) == subs_ref(some, q) + subs_ref(last, q));
            }
        }
        assert(reaching(reaching(r, all_in(some)), all_in(last)) =~= reaching(r, all_in(all)));
    }
}

proof fn lemma_nested_items(s: Scope, base: Base, p: Pgid, k: int, n: nat, r: Report)
    requires
        sane(s, base),
        base.old.contains(p),
        base.forest[p] is Leaf,
        0 <= k <= base.forest[p]->items.len(),
        forall|i: int|
            0 <= i < base.forest[p]->items.len() && #[trigger] bucket_root(base.store[p], i) != 0 ==> bounded(
                s.pages,
                bucket_root(base.store[p], i),
                n,
            ),
        new_to(s, r, all_in(base.forest[p]->subs.take(k))),
        forall|q: Pgid| #[trigger] subs_ref(base.forest[p]->subs.take(k), q) <= 1,
    ensures
        nested_items(s, base.store[p], k as nat, n, r) == reaching(r, all_in(base.forest[p]->subs.take(k))),
    decreases base.forest[p]->subs, k,
{
    lemma_there(s, base, p);
    let t = base.forest[p];
    let subs = t->subs;
    let page = base.store[p];
    if k == 0 {
        assert(subs.take(0) =~= Seq::<Option<Tree>>::empty());
        assert(reaching(r, all_in(subs.take(0))) =~= r);
    } else {
        let some = subs.take(k - 1);
        let all = subs.take(k);
        let last = subs[k - 1];
        assert(all.drop_last() =~= some);
        assert(all.last() == last);
        assert forall|q: Pgid| #[trigger] subs_ref(some, q) <= 1 && (subs_ref(some, q) > 0 ==> all_in(all).contains(q)) by {
            assert(subs_ref(all, q) <= 1);
        }
        lemma_fewer(s, r, all_in(all), all_in(some));
        lemma_nested_items(s, base, p, k - 1, n, r);
        assert(leaf_elem(page, k - 1) == t->items[k - 1]);
        if bucket_root(page, k - 1) == 0 {
            assert(all_in(all) =~= all_in(some));
        } else {
            let root = bucket_root(page, k - 1);
            let u = base.forest[root];
            assert(last == Some(u));
            assert forall|q: Pgid| #[trigger]
                u.refs(q) <= 1 && (u.refs(q) > 0 ==> all_in(all).contains(q) && !all_in(some).contains(q)) by {
                assert(subs_ref(all, q) <= 1);
            }
            lemma_fewer(s, r, all_in(all), all_of(u));
            lemma_rest(s, r, all_in(some), all_of(u));
            assert(decreases_to!(subs => subs[k - 1]));
            assert(decreases_to!(subs[k - 1] => subs[k - 1]->0));
            lemma_searched(s, base, root, n, reaching(r, all_in(some)));
            assert(all_in(some).union(all_of(u)) =~= all_in(all));
            assert(reaching(reaching(r, all_in(some)), all_of(u)) =~= reaching(r, all_in(all)));
        }
    }
}

// ---------------------------------------------------------------------------------------------
// The whole search.

/// The ids are those of the pages on a freelist, each once.
pub open spec fn ids_of(ids: Seq<Pgid>, list: FreelistV) -> bool {
    &&& ids.no_duplicates()
    &&& ids.to_set() == list.all()
}

proof fn lemma_not_relisted(ids: Seq<Pgid>, k: nat)
    requires
        ids.no_duplicates(),
        k <= ids.len(),
    ensures
        relisted(ids, k) == Seq::<Text>::empty(),
    decreases k,
{
    if k > 0 {
        lemma_not_relisted(ids, (k - 1) as nat);
        assert(!ids.take(k - 1).contains(ids[k - 1]));
    }
}

proof fn lemma_not_lost(reach: Set<Pgid>, freed: Set<Pgid>, k: nat)
    requires
        k <= u64::MAX,
        forall|p: Pgid| #[trigger] reach.contains(p) || freed.contains(p) || p >= k,
    ensures
        lost(reach, freed, k) == Seq::<Text>::empty(),
    decreases k,
{
    if k > 0 {
        let p = (k - 1) as u64;
        assert(reach.contains(p) || freed.contains(p));
        assert forall|q: Pgid| #[trigger] reach.contains(q) || freed.contains(q) || q >= k - 1 by {
            assert(reach.contains(q) || freed.contains(q) || q >= k);
        }
        lemma_not_lost(reach, freed, (k - 1) as nat);
    }
}

/// A search finds nothing wrong with a stored database in which every page is in use or at hand once.
pub proof fn lemma_healthy(pages: Pages, meta: Meta, base: Base, list: FreelistV, ids: Seq<Pgid>, n: nat)
    requires
        stored(pages, meta, base),
        spent(meta, base, list),
        ids_of(ids, list),
        bounded_root(pages, meta.root.root, n),
    ensures
        problems(Scope { pages, hwm: meta.pgid, freed: ids.to_set() }, meta, ids, 0, n) == Seq::<Text>::empty(),
{
    let s = Scope { pages, hwm: meta.pgid, freed: ids.to_set() };
    let root = meta.root.root;
    let t = base.forest[root];
    lemma_not_relisted(ids, ids.len());
    let r = Report { reach: reserved(pages, meta), errs: Seq::<Text>::empty(), halt: None };
    lemma_there(s, base, root);
    assert forall|p: Pgid| #[trigger] r.reach.contains(p) <==> p <= 1 || list_own(base, p) > 0 by {
        reveal(list_known);
    }
    assert forall|p: Pgid| #[trigger] t.refs(p) <= 1 && (t.refs(p) > 0 ==> !ids.to_set().contains(p) && p < meta.pgid
        && !r.reach.contains(p)) by {
        assert(t.refs(p) + list_own(base, p) + spare(list, meta.pgid, p) <= 1);
    }
    assert(new_to(s, r, all_of(t)));
    lemma_searched(s, base, root, n, r);
    let r1 = reaching(r, all_of(t));
    assert forall|p: Pgid| #[trigger] r1.reach.contains(p) || s.freed.contains(p) || p >= meta.pgid by {
        assert(t.refs(p) + list_own(base, p) + spare(list, meta.pgid, p) <= 1);
        assert(all_of(t).contains(p) == (t.refs(p) > 0));
        assert(r.reach.contains(p) == (p <= 1 || list_own(base, p) > 0));
        assert(listed(list, p) == 1 ==> s.freed.contains(p));
    }
    lemma_not_lost(r1.reach, s.freed, meta.pgid as nat);
    assert(r1.errs + lost(r1.reach, s.freed, meta.pgid as nat) =~= Seq::<Text>::empty());
}

/// A commit leaves every page in use or at hand once, as it was before, whatever the transaction did.
pub proof fn lemma_commit_spent(
    tx: TxInner,
    plan: CommitPlan,
    list0: FreelistV,
    list1: FreelistV,
    no_sync: bool,
)
    requires
        tx.committed(plan, list0, list1, no_sync),
        tx.full(list0),
    ensures
        spent(plan.meta, plan.base@, list1),
{
    let b = plan.base@;
    let t = b.forest[plan.meta.root.root];
    assert forall|p: Pgid| #[trigger] t.refs(p) + list_own(b, p) + spare(list1, plan.meta.pgid, p) == (if p <= 1 {
        0nat
    } else {
        1nat
    }) by {
        assert(t.refs(p) + list_own(b, p) + spare(list1, plan.meta.pgid, p) == total(tx.buckets@, tx.base@, p) + list_own(
            tx.base@,
            p,
        ) + spare(list0, tx.meta.pgid, p));
        assert(total(tx.buckets@, tx.base@, p) + list_own(tx.base@, p) + spare(list0, tx.meta.pgid, p) == (if p <= 1 {
            0nat
        } else {
            1nat
        }));
    }
}

/// A search finds nothing wrong with what a transaction committed, if every page was in use or at
/// hand once before.
pub proof fn lemma_commit_healthy(
    tx: TxInner,
    plan: CommitPlan,
    list0: FreelistV,
    list1: FreelistV,
    no_sync: bool,
    after: Pages,
    ids: Seq<Pgid>,
    n: nat,
)
    requires
        tx.good(),
        tx.committed(plan, list0, list1, no_sync),
        tx.full(list0),
        after.page_size == tx.pages.page_size,
        written_out(tx.pages.image@, after.image@, after.page_size as int, plan),
        ids_of(ids, list1),
        bounded_root(after, plan.meta.root.root, n),
    ensures
        problems(Scope { pages: after, hwm: plan.meta.pgid, freed: ids.to_set() }, plan.meta, ids, 0, n) == Seq::<Text>::empty(),
{
    lemma_new_stored(tx, plan, list0, list1, no_sync, after);
    lemma_commit_spent(tx, plan, list0, list1, no_sync);
    lemma_healthy(after, plan.meta, plan.base@, list1, ids, n);
}

/// In a new database every page is in use once, and a search finds nothing wrong with it.
pub proof fn lemma_fresh_healthy(pages: Pages, meta: Meta, list: FreelistV, n: nat)
    requires
        page_size_ok(pages.page_size as int),
        fresh(pages.image@, pages.page_size as u32),
        meta.root.root == 3,
        meta.freelist == 2,
        meta.pgid == 4,
        list.all() == Set::<Pgid>::empty(),
        bounded_root(pages, 3, n),
    ensures
        exists|base: Base| stored(pages, meta, base) && spent(meta, base, list),
        problems(Scope { pages, hwm: 4, freed: Seq::<Pgid>::empty().to_set() }, meta, Seq::empty(), 0, n) == Seq::<
            Text,
        >::empty(),
{
    let base = fresh_base(page_at(pages.image@, pages.page_size as int, 3), pages.page_size as int);
    lemma_fresh_stored(pages, meta);
    assert(spent(meta, base, list)) by {
        let t = base.forest[3];
        assert forall|p: Pgid| #[trigger] t.refs(p) == (if p == 3 {
            1nat
        } else {
            0nat
        }) by {
            assert(subs_ref(t->subs, p) == 0);
        }
        assert forall|p: Pgid| #[trigger] t.refs(p) + list_own(base, p) + spare(list, 4, p) == (if p <= 1 {
            0nat
        } else {
            1nat
        }) by {
            assert(!list.all().contains(p));
        }
    }
    assert(Seq::<Pgid>::empty().to_set() =~= list.all());
    lemma_healthy(pages, meta, base, list, Seq::empty(), n);
}

} // verus!
