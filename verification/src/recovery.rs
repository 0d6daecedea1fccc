//! What is in the file while a commit is written to it and after it.
use vstd::prelude::*;
use crate::closing::open_contents;
use crate::commit::list_page;
use crate::contents::contents;
use crate::file::{meta_one, meta_zero, picked};
use crate::freelist::FreelistV;
use crate::fresh::{first_meta, fresh};
use crate::ledger::listed;
use crate::node::Pages;
use crate::page::{header_of, is_meta_page_of, lemma_meta_page, lemma_meta_same, meta_at, meta_prefix, meta_sum, MAGIC, META_PAGE_FLAG, Meta, PGID_NO_FREELIST, Pgid, Txid, VERSION};
use crate::plan::{list_there, on_page, page_there, planned, CommitPlan};
use crate::reach::lemma_holds_refs;
use crate::snapshot::{can_begin, clear, stored};
use crate::tx::{list_known, list_own, total, TxInner};
use crate::writer::{covers, fenced, spare};

verus! {

/// Page `p` of an image.
pub open spec fn page_at(image: Seq<u8>, page_size: int, p: int) -> Seq<u8> {
    image.subrange(p * page_size, (p + 1) * page_size)
}

/// Page `p` is not one of the new pages.
pub open spec fn untouched(plan: CommitPlan, page_size: int, p: Pgid) -> bool {
    forall|i: int| 0 <= i < plan.pages@.len() ==> !#[trigger] on_page(plan.pages@, page_size, i, p)
}

/// Whatever was written of the new pages, everything else is as it was: what the file can hold
/// until the new meta page is written.
pub open spec fn writing(before: Seq<u8>, after: Seq<u8>, page_size: int, plan: CommitPlan) -> bool {
    &&& after.len() >= before.len()
    &&& forall|p: Pgid|
        (p + 1) * page_size <= before.len() && #[trigger] untouched(plan, page_size, p) ==> page_at(
            after,
            page_size,
            p as int,
        ) == page_at(before, page_size, p as int)
}

/// The new pages and the new meta page are written, and everything else is as it was.
pub open spec fn written_out(before: Seq<u8>, after: Seq<u8>, page_size: int, plan: CommitPlan) -> bool {
    let m = plan.meta.txid % 2;
    &&& after.len() >= before.len()
    &&& forall|p: Pgid|
        p != m && (p + 1) * page_size <= before.len() && #[trigger] untouched(plan, page_size, p) ==> page_at(
            after,
            page_size,
            p as int,
        ) == page_at(before, page_size, p as int)
    &&& forall|i: int|
        0 <= i < plan.pages@.len() ==> {
            let at = (#[trigger] plan.pages@[i]).0 * page_size;
            &&& at + plan.pages@[i].1@.len() <= after.len()
            &&& after.subrange(at, at + plan.pages@[i].1@.len()) == plan.pages@[i].1@
        }
    &&& (m + 1) * page_size <= after.len()
    &&& page_at(after, page_size, m as int) == plan.meta_page@
}

/// The header of a page is in its first bytes.
proof fn lemma_header(image: Seq<u8>, start: int, end: int)
    requires
        0 <= start,
        start + 16 <= end <= image.len(),
    ensures
        header_of(image.skip(start)) == header_of(image.subrange(start, end)),
{
    let a = image.skip(start);
    let b = image.subrange(start, end);
    assert forall|i: int| 0 <= i < 16 implies #[trigger] a[i] == b[i] by {
    }
}

/// A run of pages that are the same is the same.
proof fn lemma_run(a: Seq<u8>, b: Seq<u8>, ps: int, q: int, n: int)
    requires
        ps > 0,
        q >= 0,
        n >= 0,
        (q + n) * ps <= a.len(),
        (q + n) * ps <= b.len(),
        forall|p: int| q <= p < q + n ==> #[trigger] page_at(a, ps, p) == page_at(b, ps, p),
    ensures
        a.subrange(q * ps, (q + n) * ps) == b.subrange(q * ps, (q + n) * ps),
    decreases n,
{
    assert(q * ps >= 0) by (nonlinear_arith)
        requires
            q >= 0,
            ps > 0,
    ;
    if n == 0 {
        assert(a.subrange(q * ps, q * ps) =~= b.subrange(q * ps, q * ps));
    } else {
        let m = q + n - 1;
        assert((q + n) * ps == m * ps + ps && (m + 1) * ps == (q + n) * ps && q * ps <= m * ps) by (nonlinear_arith)
            requires
                m == q + n - 1,
                n >= 1,
                ps > 0,
        ;
        lemma_run(a, b, ps, q, n - 1);
        assert(page_at(a, ps, m) == page_at(b, ps, m));
        assert(a.subrange(q * ps, (q + n) * ps) =~= a.subrange(q * ps, m * ps) + page_at(a, ps, m));
        assert(b.subrange(q * ps, (q + n) * ps) =~= b.subrange(q * ps, m * ps) + page_at(b, ps, m));
    }
}

/// A page, with its overflow, that is the same in both images is read the same.
proof fn lemma_page_same(a: Pages, b: Pages, q: Pgid, over: u32, page: Seq<u8>)
    requires
        a.page_size == b.page_size,
        a.page_size >= 16,
        a.has(q),
        a.bytes(q) == page,
        page.len() == (over + 1) * a.page_size,
        header_of(page).overflow == over,
        a.image@.len() <= b.image@.len(),
        forall|p: Pgid|
            q <= p <= q + over ==> #[trigger] page_at(b.image@, a.page_size as int, p as int) == page_at(
                a.image@,
                a.page_size as int,
                p as int,
            ),
    ensures
        b.has(q),
        b.bytes(q) == page,
{
    let ps = a.page_size as int;
    let start = q * ps;
    let n = over + 1;
    let h = header_of(a.image@.skip(start)).overflow;
    assert(start >= 0 && (q + n) * ps == start + n * ps && n * ps >= ps) by (nonlinear_arith)
        requires
            start == q * ps,
            q >= 0,
            n >= 1,
            ps > 0,
    ;
    assert((h + 1) * ps >= ps) by (nonlinear_arith)
        requires
            h >= 0,
            ps > 0,
    ;
    assert(a.bytes(q).len() == (h + 1) * ps);
    lemma_header(a.image@, start, start + (h + 1) * ps);
    assert(h == over);
    assert forall|p: int| q <= p < q + n implies #[trigger] page_at(b.image@, ps, p) == page_at(a.image@, ps, p) by {
        assert(q + over < 0x1_0000_0000_0000_0000) by {
            assert((q + n) * ps <= a.image@.len());
            assert(q + n <= (q + n) * ps) by (nonlinear_arith)
                requires
                    ps >= 1,
                    q + n >= 0,
            ;
            assert(a.image@.len() == a.image.len());
        }
        let x = p as u64;
        assert(page_at(b.image@, a.page_size as int, x as int) == page_at(a.image@, a.page_size as int, x as int));
    }
    lemma_run(b.image@, a.image@, ps, q as int, n);
    assert(b.image@.subrange(start, start + n * ps) == page);
    lemma_header(b.image@, start, start + n * ps);
}

/// A page that was written is read as it was written.
proof fn lemma_page_written(b: Pages, q: Pgid, over: u32, page: Seq<u8>)
    requires
        b.page_size >= 16,
        page.len() == (over + 1) * b.page_size,
        header_of(page).overflow == over,
        q * b.page_size + page.len() <= b.image@.len(),
        b.image@.subrange(q * b.page_size, q * b.page_size + page.len()) == page,
    ensures
        b.has(q),
        b.bytes(q) == page,
{
    let ps = b.page_size as int;
    let start = q * ps;
    let n = over + 1;
    assert(start >= 0 && n * ps >= ps) by (nonlinear_arith)
        requires
            start == q * ps,
            q >= 0,
            n >= 1,
            ps > 0,
    ;
    lemma_header(b.image@, start, start + n * ps);
}

/// A page that can be read has the length that its header says.
proof fn lemma_page_len(pages: Pages, q: Pgid)
    requires
        pages.page_size >= 16,
        pages.has(q),
    ensures
        pages.bytes(q).len() == (header_of(pages.bytes(q)).overflow + 1) * pages.page_size,
{
    let ps = pages.page_size as int;
    let start = q * ps;
    let h = header_of(pages.image@.skip(start)).overflow;
    assert(start >= 0 && (h + 1) * ps >= ps) by (nonlinear_arith)
        requires
            start == q * ps,
            q >= 0,
            ps > 0,
            h >= 0,
    ;
    lemma_header(pages.image@, start, start + (h + 1) * ps);
}

/// The pages of a page that was read lie inside the image.
proof fn lemma_inside(pages: Pages, q: Pgid, over: u32, p: Pgid)
    requires
        pages.page_size >= 16,
        pages.has(q),
        pages.bytes(q).len() == (over + 1) * pages.page_size,
        q <= p <= q + over,
    ensures
        (p + 1) * pages.page_size <= pages.image@.len(),
{
    let ps = pages.page_size as int;
    let start = q * ps;
    let h = header_of(pages.image@.skip(start)).overflow;
    assert(start >= 0 && (h + 1) * ps >= 0) by (nonlinear_arith)
        requires
            start == q * ps,
            q >= 0,
            ps > 0,
            h >= 0,
    ;
    assert(pages.bytes(q).len() == (h + 1) * ps);
    assert((p + 1) * ps <= start + (over + 1) * ps) by (nonlinear_arith)
        requires
            start == q * ps,
            p <= q + over,
            ps > 0,
    ;
}

/// A page that none of the new pages touches is read as it was.
proof fn lemma_page_stays(a: Pages, b: Pages, plan: CommitPlan, q: Pgid, over: u32)
    requires
        a.page_size == b.page_size,
        a.page_size >= 16,
        a.has(q),
        a.bytes(q).len() == (over + 1) * a.page_size,
        header_of(a.bytes(q)).overflow == over,
        q > 1,
        a.image@.len() <= b.image@.len(),
        forall|p: Pgid|
            p > 1 && (p + 1) * a.page_size <= a.image@.len() && #[trigger] untouched(plan, a.page_size as int, p)
                ==> page_at(b.image@, a.page_size as int, p as int) == page_at(a.image@, a.page_size as int, p as int),
        forall|p: Pgid| q <= p <= q + over ==> #[trigger] untouched(plan, a.page_size as int, p),
    ensures
        b.has(q),
        b.bytes(q) == a.bytes(q),
{
    assert forall|p: Pgid| q <= p <= q + over implies #[trigger] page_at(b.image@, a.page_size as int, p as int)
        == page_at(a.image@, a.page_size as int, p as int) by {
        lemma_inside(a, q, over, p);
        assert(untouched(plan, a.page_size as int, p));
    }
    lemma_page_same(a, b, q, over, a.bytes(q));
}

/// What was there before a commit is not touched by the new pages.
proof fn lemma_base_stays(tx: TxInner, plan: CommitPlan, list: FreelistV, after: Pages)
    requires
        tx.good(),
        planned(tx.base@, plan, list),
        after.page_size == tx.pages.page_size,
        tx.pages.image@.len() <= after.image@.len(),
        forall|p: Pgid|
            p > 1 && (p + 1) * after.page_size <= tx.pages.image@.len() && #[trigger] untouched(
                plan,
                after.page_size as int,
                p,
            ) ==> page_at(after.image@, after.page_size as int, p as int) == page_at(
                tx.pages.image@,
                after.page_size as int,
                p as int,
            ),
    ensures
        forall|q: Pgid| #[trigger] tx.base@.old.contains(q) ==> after.has(q) && after.bytes(q) == tx.base@.store[q],
        tx.base@.list_pgid != 0 && tx.pages.has(tx.base@.list_pgid) && header_of(
            tx.pages.bytes(tx.base@.list_pgid),
        ).overflow == tx.base@.list_over ==> after.has(tx.base@.list_pgid) && after.bytes(tx.base@.list_pgid)
            == tx.pages.bytes(tx.base@.list_pgid),
{
    let base = tx.base@;
    let ps = base.page_size;
    assert forall|q: Pgid, p: Pgid| #[trigger] covers(base, q, p) implies untouched(plan, ps, p) by {
    }
    assert forall|q: Pgid| #[trigger] base.old.contains(q) implies after.has(q) && after.bytes(q) == base.store[q] by {
        assert(base.page_ok(q));
        let over = base.forest[q].over();
        assert forall|p: Pgid| q <= p <= q + over implies #[trigger] untouched(plan, ps, p) by {
            assert(covers(base, q, p));
        }
        lemma_page_stays(tx.pages, after, plan, q, over);
    }
    let q = base.list_pgid;
    if q != 0 && tx.pages.has(q) && header_of(tx.pages.bytes(q)).overflow == base.list_over {
        lemma_page_len(tx.pages, q);
        assert forall|p: Pgid| q <= p <= q + base.list_over implies #[trigger] untouched(plan, ps, p) by {
            assert(covers(base, q, p));
        }
        lemma_page_stays(tx.pages, after, plan, q, base.list_over);
    }
}

/// Until the new meta page is written the file holds what it held: a meta page that led to all that
/// the transaction began with still does, whatever has been written of the new pages.
pub proof fn lemma_old_survives(tx: TxInner, plan: CommitPlan, list: FreelistV, after: Pages, meta: Meta)
    requires
        tx.good(),
        planned(tx.base@, plan, list),
        after.page_size == tx.pages.page_size,
        writing(tx.pages.image@, after.image@, after.page_size as int, plan),
        stored(tx.pages, meta, tx.base@),
        meta.freelist == PGID_NO_FREELIST || tx.pages.has(meta.freelist),
    ensures
        stored(after, meta, tx.base@),
{
    reveal(list_known);
    lemma_base_stays(tx, plan, list, after);
}

/// Once the new pages and the new meta page are written, the new meta leads to what the transaction
/// held.
pub proof fn lemma_new_stored(
    tx: TxInner,
    plan: CommitPlan,
    list0: FreelistV,
    list1: FreelistV,
    no_sync: bool,
    after: Pages,
)
    requires
        tx.good(),
        tx.committed(plan, list0, list1, no_sync),
        after.page_size == tx.pages.page_size,
        written_out(tx.pages.image@, after.image@, after.page_size as int, plan),
    ensures
        stored(after, plan.meta, plan.base@),
        contents(plan.base@.forest[plan.meta.root.root]) == open_contents(tx.buckets@, tx.base@, 0),
        is_meta_page_of(page_at(after.image@, after.page_size as int, (plan.meta.txid % 2) as int), plan.meta),
{
    lemma_new_backs(tx, plan, list1, after);
    lemma_new_list(plan, list1, after);
}

/// The pages that the new meta leads to are in the file.
proof fn lemma_new_backs(tx: TxInner, plan: CommitPlan, list: FreelistV, after: Pages)
    requires
        tx.good(),
        planned(tx.base@, plan, list),
        after.page_size == tx.pages.page_size,
        written_out(tx.pages.image@, after.image@, after.page_size as int, plan),
    ensures
        after.backs(plan.base@),
{
    let b = plan.base@;
    lemma_base_stays(tx, plan, list, after);
    assert forall|q: Pgid| #[trigger] b.old.contains(q) implies after.has(q) && after.bytes(q) == b.store[q] by {
        assert(b.page_ok(q));
        assert(page_there(tx.base@, plan, q));
        if !(tx.base@.old.contains(q) && b.store[q] == tx.base@.store[q]) {
            let i = choose|i: int|
                0 <= i < plan.pages@.len() && (#[trigger] plan.pages@[i]).0 == q && plan.pages@[i].1@ == b.store[q];
            assert(plan.pages@[i].0 == q);
            lemma_page_written(after, q, b.forest[q].over(), b.store[q]);
        }
    }
}

/// The new page of the freelist is in the file.
proof fn lemma_new_list(plan: CommitPlan, list: FreelistV, after: Pages)
    requires
        list_there(plan, list),
        plan.base@.list_pgid != 0 ==> plan.base@.list_pgid > 1,
        after.page_size >= 16,
        after.page_size == plan.base@.page_size,
        forall|i: int|
            0 <= i < plan.pages@.len() ==> {
                let at = (#[trigger] plan.pages@[i]).0 * after.page_size;
                &&& at + plan.pages@[i].1@.len() <= after.image@.len()
                &&& after.image@.subrange(at, at + plan.pages@[i].1@.len()) == plan.pages@[i].1@
            },
    ensures
        list_known(after, plan.meta, plan.base@),
{
    let b = plan.base@;
    reveal(list_known);
    if b.list_pgid != 0 {
        let i = choose|i: int|
            0 <= i < plan.pages@.len() && (#[trigger] plan.pages@[i]).0 == b.list_pgid && list_page(
                list,
                b.list_pgid,
                plan.pages@[i].1@,
            ) && header_of(plan.pages@[i].1@).overflow == b.list_over && plan.pages@[i].1@.len() == (b.list_over + 1)
                * b.page_size;
        assert(plan.pages@[i].0 == b.list_pgid);
        lemma_page_written(after, b.list_pgid, b.list_over, plan.pages@[i].1@);
    }
}

/// The new page of the freelist can be read.
pub proof fn lemma_new_list_page(plan: CommitPlan, list: FreelistV, after: Pages)
    requires
        list_there(plan, list),
        plan.meta.freelist != PGID_NO_FREELIST,
        after.page_size >= 16,
        after.page_size == plan.base@.page_size,
        forall|i: int|
            0 <= i < plan.pages@.len() ==> {
                let at = (#[trigger] plan.pages@[i]).0 * after.page_size;
                &&& at + plan.pages@[i].1@.len() <= after.image@.len()
                &&& after.image@.subrange(at, at + plan.pages@[i].1@.len()) == plan.pages@[i].1@
            },
    ensures
        after.has(plan.meta.freelist),
        list_page(list, plan.meta.freelist, after.bytes(plan.meta.freelist)),
{
    let b = plan.base@;
    let i = choose|i: int|
        0 <= i < plan.pages@.len() && (#[trigger] plan.pages@[i]).0 == b.list_pgid && list_page(
            list,
            b.list_pgid,
            plan.pages@[i].1@,
        ) && header_of(plan.pages@[i].1@).overflow == b.list_over && plan.pages@[i].1@.len() == (b.list_over + 1)
            * b.page_size;
    assert(plan.pages@[i].0 == b.list_pgid);
    lemma_page_written(after, b.list_pgid, b.list_over, plan.pages@[i].1@);
}

/// The next write transaction can begin where the freelist lists no page that the committed one
/// did not, and nothing from the new transaction yet. It finds what was committed.
pub proof fn lemma_next_begins(
    tx: TxInner,
    plan: CommitPlan,
    list0: FreelistV,
    list1: FreelistV,
    no_sync: bool,
    after: Pages,
    meta: Meta,
    list: FreelistV,
)
    requires
        tx.good(),
        tx.sound(list0),
        tx.committed(plan, list0, list1, no_sync),
        after.page_size == tx.pages.page_size,
        written_out(tx.pages.image@, after.image@, after.page_size as int, plan),
        meta.root == plan.meta.root,
        meta.freelist == plan.meta.freelist,
        meta.pgid == plan.meta.pgid,
        meta.txid > 0,
        list.ok(),
        list.all().subset_of(list1.all()),
        forall|p: Pgid| #[trigger] list.allocs.contains_key(p) ==> list.allocs[p] != meta.txid,
        !list.pending.contains_key(meta.txid),
    ensures
        stored(after, meta, plan.base@),
        clear(meta, plan.base@, list),
        can_begin(after, meta, list, true),
        contents(plan.base@.forest[meta.root.root]) == open_contents(tx.buckets@, tx.base@, 0),
{
    let b = plan.base@;
    let root = plan.meta.root.root;
    lemma_new_stored(tx, plan, list0, list1, no_sync, after);
    assert(stored(after, meta, b)) by {
        reveal(list_known);
    }
    assert forall|p: Pgid| #[trigger]
        b.forest[root].refs(p) + list_own(b, p) + spare(list, meta.pgid, p) <= 1 by {
        assert(b.forest[root].refs(p) + list_own(b, p) + spare(list1, plan.meta.pgid, p) == total(
            tx.buckets@,
            tx.base@,
            p,
        ) + list_own(tx.base@, p) + spare(list0, tx.meta.pgid, p));
        assert(total(tx.buckets@, tx.base@, p) + list_own(tx.base@, p) + spare(list0, tx.meta.pgid, p) <= 1);
        assert(listed(list, p) <= listed(list1, p));
    }
    assert forall|q: Pgid, p: Pgid| #[trigger] covers(b, q, p) implies !list.free.contains(p) && p < meta.pgid by {
        if b.forest.contains_key(q) && q <= p <= q + b.forest[q].over() {
            assert(b.page_ok(q));
            assert(b.page_ok(root));
            assert(b.old.contains(q));
            lemma_holds_refs(b, b.forest[root], q, p);
        }
        assert(b.forest[root].refs(p) + list_own(b, p) >= 1);
        assert(b.forest[root].refs(p) + list_own(b, p) + spare(list, meta.pgid, p) <= 1);
    }
    assert(fenced(b, list, meta.pgid)) by {
        assert(!list.free.contains(1)) by {
            if list.free.contains(1) {
                assert(list.all().contains(1));
                assert(list1.all().contains(1));
                assert(list1.ok());
                assert(!list1.free.contains(1));
                assert(list1.pending_pages().contains(1));
                let t = choose|t: Txid| #[trigger]
                    list1.pending.contains_key(t) && list1.pending[t].pages.contains_key(1);
                assert(list1.pending.contains_key(t) && list1.pending[t].pages.contains_key(1));
            }
        }
    }
    assert forall|p: Pgid| #[trigger] list.all().contains(p) implies p < b.limit by {
        assert(b.forest[root].refs(p) + list_own(b, p) + spare(list, meta.pgid, p) <= 1);
        assert(listed(list, p) == 1);
    }
}

// ---------------------------------------------------------------------------------------------
// Which meta counts.

/// The record of a meta page is in its first bytes.
proof fn lemma_meta_at(image: Seq<u8>, ps: int, p: int)
    requires
        0 <= p <= 1,
        ps >= 80,
        2 * ps <= image.len(),
    ensures
        meta_at(page_at(image, ps, p), 16) == meta_at(image.skip(p * ps), 16),
        header_of(page_at(image, ps, p)) == header_of(image.skip(p * ps)),
{
    let a = image.skip(p * ps);
    let b = page_at(image, ps, p);
    assert(p * ps == 0 || p * ps == ps) by (nonlinear_arith)
        requires
            0 <= p <= 1,
    ;
    assert((p + 1) * ps == p * ps + ps) by (nonlinear_arith);
    assert forall|i: int| 0 <= i < 80 implies #[trigger] a[i] == b[i] by {
    }
    lemma_meta_same(a, b);
}

/// Of the two metas in a file the one that is intact and newer is picked, as long as page zero says
/// how large a page is.
pub proof fn lemma_picks_newest(image: Seq<u8>, ps: int, meta: Meta)
    requires
        ps >= 80,
        2 * ps <= image.len(),
        meta_at(image, 16).page_size == ps,
        meta.magic == MAGIC,
        meta.version == VERSION,
        is_meta_page_of(page_at(image, ps, (meta.txid % 2) as int), meta),
        ({
            let other = meta_at(page_at(image, ps, 1 - meta.txid % 2), 16);
            other.valid() ==> other.txid < meta.txid
        }),
    ensures
        picked(image) == Some(Meta { checksum: meta_sum(meta), ..meta }),
{
    let m = (meta.txid % 2) as int;
    let a = meta_at(page_at(image, ps, 0), 16);
    let b = meta_at(page_at(image, ps, 1), 16);
    lemma_two_metas(image, ps);
    lemma_summed(meta);
    lemma_meta_page(page_at(image, ps, m), meta);
    let found = Meta { checksum: meta_sum(meta), ..meta };
    if m == 0 {
        assert(a == found);
    } else {
        assert(b == found);
    }
}

/// The two metas in a file.
proof fn lemma_two_metas(image: Seq<u8>, ps: int)
    requires
        ps >= 80,
        2 * ps <= image.len(),
        meta_at(image, 16).page_size == ps,
    ensures
        ({
            let a = meta_at(page_at(image, ps, 0), 16);
            let b = meta_at(page_at(image, ps, 1), 16);
            &&& meta_at(image, 16) == a
            &&& meta_zero(image) == (if header_of(page_at(image, ps, 0)).flags == META_PAGE_FLAG && a.valid() {
                Some(a)
            } else {
                None::<Meta>
            })
            &&& meta_one(image) == (if b.valid() {
                Some(b)
            } else {
                None::<Meta>
            })
        }),
{
    lemma_meta_at(image, ps, 0);
    lemma_meta_at(image, ps, 1);
    assert(0 * ps == 0 && 1 * ps == ps) by (nonlinear_arith);
    assert(image.skip(0) =~= image);
}

/// A meta with its checksum is valid.
proof fn lemma_summed(meta: Meta)
    requires
        meta.magic == MAGIC,
        meta.version == VERSION,
    ensures
        (Meta { checksum: meta_sum(meta), ..meta }).valid(),
{
    let found = Meta { checksum: meta_sum(meta), ..meta };
    assert(meta_prefix(found) == meta_prefix(meta));
}

/// Until the new meta page is written the meta that counts is the old one.
pub proof fn lemma_old_picked(before: Seq<u8>, after: Seq<u8>, ps: int, plan: CommitPlan)
    requires
        ps >= 80,
        2 * ps <= before.len(),
        writing(before, after, ps, plan),
        forall|i: int| 0 <= i < plan.pages@.len() ==> (#[trigger] plan.pages@[i]).0 > 1,
        meta_at(before, 16).page_size == ps,
    ensures
        picked(after) == picked(before),
{
    assert(untouched(plan, ps, 0) && untouched(plan, ps, 1));
    assert((0 + 1) * ps == ps && (1 + 1) * ps == 2 * ps && 0 * ps == 0 && 1 * ps == ps) by (nonlinear_arith);
    assert(page_at(after, ps, 0) == page_at(before, ps, 0));
    assert(page_at(after, ps, 1) == page_at(before, ps, 1));
    lemma_meta_at(before, ps, 0);
    lemma_meta_at(before, ps, 1);
    lemma_meta_at(after, ps, 0);
    lemma_meta_at(after, ps, 1);
    assert(before.skip(0) =~= before);
    assert(after.skip(0) =~= after);
}

/// Once the new meta page is written it is the one that counts.
pub proof fn lemma_new_picked(before: Seq<u8>, after: Seq<u8>, ps: int, plan: CommitPlan)
    requires
        80 <= ps <= u32::MAX,
        2 * ps <= before.len(),
        written_out(before, after, ps, plan),
        forall|i: int| 0 <= i < plan.pages@.len() ==> (#[trigger] plan.pages@[i]).0 > 1,
        meta_at(before, 16).page_size == ps,
        plan.meta.page_size == ps,
        plan.meta.magic == MAGIC,
        plan.meta.version == VERSION,
        is_meta_page_of(plan.meta_page@, plan.meta),
        ({
            let other = meta_at(page_at(before, ps, 1 - plan.meta.txid % 2), 16);
            other.valid() ==> other.txid < plan.meta.txid
        }),
    ensures
        picked(after) == Some(Meta { checksum: meta_sum(plan.meta), ..plan.meta }),
{
    lemma_other_meta(before, after, ps, plan);
    lemma_first_meta(before, ps);
    lemma_first_meta(after, ps);
    lemma_meta_page(plan.meta_page@, plan.meta);
    lemma_picks_newest(after, ps, plan.meta);
}

/// The meta page that is not written stays, and page zero still says how large a page is.
proof fn lemma_other_meta(before: Seq<u8>, after: Seq<u8>, ps: int, plan: CommitPlan)
    requires
        80 <= ps,
        2 * ps <= before.len(),
        written_out(before, after, ps, plan),
        forall|i: int| 0 <= i < plan.pages@.len() ==> (#[trigger] plan.pages@[i]).0 > 1,
    ensures
        2 * ps <= after.len(),
        page_at(after, ps, (plan.meta.txid % 2) as int) == plan.meta_page@,
        page_at(after, ps, 1 - plan.meta.txid % 2) == page_at(before, ps, 1 - plan.meta.txid % 2),
{
    let other: Pgid = (1 - plan.meta.txid % 2) as u64;
    assert(untouched(plan, ps, other));
    assert((0 + 1) * ps == ps && (1 + 1) * ps == 2 * ps && 0 * ps == 0 && 1 * ps == ps) by (nonlinear_arith);
    assert(page_at(after, ps, other as int) == page_at(before, ps, other as int));
}

/// Page zero begins the file.
proof fn lemma_first_meta(image: Seq<u8>, ps: int)
    requires
        ps >= 80,
        2 * ps <= image.len(),
    ensures
        meta_at(page_at(image, ps, 0), 16) == meta_at(image, 16),
{
    lemma_meta_at(image, ps, 0);
    assert(0 * ps == 0) by (nonlinear_arith);
    assert(image.skip(0) =~= image);
}

/// The two meta pages of a new database.
proof fn lemma_fresh_metas(image: Seq<u8>, page_size: u32)
    requires
        fresh(image, page_size),
    ensures
        image.len() == 4 * page_size,
        is_meta_page_of(page_at(image, page_size as int, 0), first_meta(page_size, 0)),
        is_meta_page_of(page_at(image, page_size as int, 1), first_meta(page_size, 1)),
{
    let ps = page_size as int;
    assert(is_meta_page_of(page_at(image, ps, 0), first_meta(page_size, 0int as u64)));
    assert(is_meta_page_of(page_at(image, ps, 1), first_meta(page_size, 1int as u64)));
}

/// A new database is that of transaction one, on the second page; the first page holds the same of
/// transaction zero.
pub proof fn lemma_fresh_picked(image: Seq<u8>, page_size: u32)
    requires
        page_size >= 80,
        fresh(image, page_size),
    ensures
        picked(image) matches Some(m) && m.txid == 1 && m.page_size == page_size && m.root.root == 3 && m.root.sequence
            == 0 && m.freelist == 2 && m.pgid == 4 && m.valid(),
        image.len() == 4 * page_size,
{
    lemma_fresh_metas(image, page_size);
    lemma_first_picked(image, page_size);
    lemma_summed(first_meta(page_size, 1));
}

proof fn lemma_first_picked(image: Seq<u8>, page_size: u32)
    requires
        page_size >= 80,
        image.len() == 4 * page_size,
        is_meta_page_of(page_at(image, page_size as int, 0), first_meta(page_size, 0)),
        is_meta_page_of(page_at(image, page_size as int, 1), first_meta(page_size, 1)),
    ensures
        picked(image) == Some(
            Meta { checksum: meta_sum(first_meta(page_size, 1)), ..first_meta(page_size, 1) },
        ),
{
    let ps = page_size as int;
    lemma_meta_page(page_at(image, ps, 0), first_meta(page_size, 0));
    lemma_meta_at(image, ps, 0);
    assert(0 * ps == 0) by (nonlinear_arith);
    assert(image.skip(0) =~= image);
    lemma_picks_newest(image, ps, first_meta(page_size, 1));
}

/// A commit that takes pages behind the end has the file grown so that it holds all pages and one more,
/// and any other leaves it as large as it is.
pub proof fn lemma_grow_to(tx: TxInner, plan: CommitPlan, list0: FreelistV, list1: FreelistV, no_freelist_sync: bool)
    requires
        tx.committed(plan, list0, list1, no_freelist_sync),
        plan.meta.pgid < u64::MAX,
        tx.pages.page_size <= 0x4000_0000,
    ensures
        plan.meta.pgid >= tx.meta.pgid,
        plan.meta.pgid == tx.meta.pgid <==> plan.grow_to is None,
        plan.grow_to matches Some(n) ==> n == plan.meta.pgid * tx.pages.page_size + tx.pages.page_size,
{
    let (a, b) = (plan.meta.pgid as int, tx.pages.page_size as int);
    assert((a + 1) * b == a * b + b && 0 <= (a + 1) * b <= 0x1_0000_0000_0000_0000 * 0x4000_0000) by (nonlinear_arith)
        requires
            0 <= a < 0x1_0000_0000_0000_0000,
            0 <= b <= 0x4000_0000,
    ;
}

} // verus!
