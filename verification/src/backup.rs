//! Copying a database page by page.
use vstd::prelude::*;
use vstd::slice::slice_subrange;
use vstd::slice::slice_to_vec;
use crate::file::picked;
use crate::node::{Base, Pages};
use crate::page::{header_of, is_meta_page_of, lemma_meta_page, lemma_meta_same, meta_at, meta_prefix, meta_sum, write_meta_page, zero_from, MAGIC, Meta, PGID_NO_FREELIST, Pgid, VERSION};
use crate::recovery::{lemma_picks_newest, page_at};
use crate::snapshot::stored;
use crate::tx::{list_known, TxInner};
use crate::writer::page_size_ok;

verus! {

/// A meta that can be written to a file with pages of `page_size` bytes.
pub open spec fn meta_fits(meta: Meta, page_size: int) -> bool {
    &&& meta.magic == MAGIC
    &&& meta.version == VERSION
    &&& meta.page_size == page_size
    &&& meta.root.root < meta.pgid
    &&& meta.freelist < meta.pgid || meta.freelist == PGID_NO_FREELIST
    &&& meta.pgid >= 2
}

/// A copy of the database that a meta leads to: its meta page, that of the transaction before if
/// there was one, and all other pages as they are.
pub open spec fn copied(image: Seq<u8>, copy: Seq<u8>, meta: Meta) -> bool {
    let ps = meta.page_size as int;
    let m = (meta.txid % 2) as int;
    &&& copy.len() == meta.pgid * ps
    &&& is_meta_page_of(page_at(copy, ps, m), meta)
    &&& zero_from(page_at(copy, ps, 0), 80)
    &&& zero_from(page_at(copy, ps, 1), 80)
    &&& if meta.txid > 0 {
        is_meta_page_of(page_at(copy, ps, 1 - m), Meta { txid: (meta.txid - 1) as u64, ..meta })
    } else {
        page_at(copy, ps, 1 - m) == Seq::new(ps as nat, |i: int| 0u8)
    }
    &&& forall|i: int| 2 * ps <= i < copy.len() ==> copy[i] == image[i]
}

/// The meta page of a meta.
fn meta_page(meta: &Meta, page_size: usize) -> (page: Vec<u8>)
    requires
        page_size >= 80,
        meta_fits(*meta, page_size as int),
    ensures
        page@.len() == page_size,
        is_meta_page_of(page@, *meta),
        zero_from(page@, 80),
{
    let mut page: Vec<u8> = vec![0u8; page_size];
    write_meta_page(&mut page, meta);
    page
}

impl<'a> TxInner<'a> {
    /// The file of a copy of the database as the transaction found it.
    pub fn write_to(&self) -> (copy: Vec<u8>)
        requires
            page_size_ok(self.pages.page_size as int),
            meta_fits(self.meta, self.pages.page_size as int),
            self.meta.pgid * self.pages.page_size <= self.pages.image@.len(),
        ensures
            copied(self.pages.image@, copy@, self.meta),
    {
        let ps: usize = self.pages.page_size;
        let image: &'a [u8] = self.pages.image;
        let meta: &Meta = &self.meta;
        proof {
            assert(2 * ps <= meta.pgid * ps) by (nonlinear_arith)
                requires
                    2 <= meta.pgid,
            ;
        }
        proof {
            assert(meta.pgid <= meta.pgid * ps) by (nonlinear_arith)
                requires
                    ps >= 1,
            ;
        }
        let len: usize = image.len();
        assert(meta.pgid * ps <= len);
        let size: usize = meta.pgid as usize * ps;
        let newer: Vec<u8> = meta_page(meta, ps);
        let older: Vec<u8> = older_page(meta, ps);
        let rest: Vec<u8> = slice_to_vec(slice_subrange(image, 2 * ps, size));
        let ghost (n, o, r) = (newer@, older@, rest@);
        let copy: Vec<u8> = if meta.txid % 2 == 0 {
            join_pages(newer, older, rest)
        } else {
            join_pages(older, newer, rest)
        };
        proof {
            lemma_copied(image@, copy@, *meta, n, o, r);
        }
        copy
    }
}

/// What makes up a copy.
proof fn lemma_copied(image: Seq<u8>, copy: Seq<u8>, meta: Meta, newer: Seq<u8>, older: Seq<u8>, rest: Seq<u8>)
    requires
        meta_fits(meta, newer.len() as int),
        newer.len() == older.len(),
        2 * newer.len() <= meta.pgid * newer.len() <= image.len(),
        rest == image.subrange(2 * newer.len() as int, meta.pgid * newer.len()),
        is_meta_page_of(newer, meta),
        zero_from(newer, 80),
        zero_from(older, 80),
        if meta.txid > 0 {
            is_meta_page_of(older, Meta { txid: (meta.txid - 1) as u64, ..meta })
        } else {
            older == Seq::new(newer.len(), |i: int| 0u8)
        },
        copy.len() == 2 * newer.len() + rest.len(),
        page_at(copy, newer.len() as int, (meta.txid % 2) as int) == newer,
        page_at(copy, newer.len() as int, 1 - meta.txid % 2) == older,
        forall|i: int| 2 * newer.len() <= i < copy.len() ==> #[trigger] copy[i] == rest[i - 2 * newer.len()],
    ensures
        copied(image, copy, meta),
{
    assert forall|i: int| 2 * newer.len() <= i < copy.len() implies copy[i] == image[i] by {
        assert(copy[i] == rest[i - 2 * newer.len()]);
    }
}

/// The other meta page: that of the transaction before, or an empty one.
fn older_page(meta: &Meta, page_size: usize) -> (page: Vec<u8>)
    requires
        page_size >= 80,
        meta_fits(*meta, page_size as int),
    ensures
        page@.len() == page_size,
        zero_from(page@, 80),
        if meta.txid > 0 {
            is_meta_page_of(page@, Meta { txid: (meta.txid - 1) as u64, ..*meta })
        } else {
            page@ == Seq::new(page_size as nat, |i: int| 0u8)
        },
{
    if meta.txid > 0 {
        let mut last: Meta = meta.clone();
        last.txid = meta.txid - 1;
        meta_page(&last, page_size)
    } else {
        let page: Vec<u8> = vec![0u8; page_size];
        assert(page@ =~= Seq::new(page_size as nat, |i: int| 0u8));
        page
    }
}

/// Two pages and what comes behind them.
fn join_pages(first: Vec<u8>, second: Vec<u8>, rest: Vec<u8>) -> (file: Vec<u8>)
    requires
        first@.len() == second@.len(),
    ensures
        file@.len() == 2 * first@.len() + rest@.len(),
        page_at(file@, first@.len() as int, 0) == first@,
        page_at(file@, first@.len() as int, 1) == second@,
        forall|i: int| 2 * first@.len() <= i < file@.len() ==> #[trigger] file@[i] == rest@[i - 2 * first@.len()],
{
    let ghost (x, y) = (first@, second@);
    let mut file: Vec<u8> = first;
    let mut more: Vec<u8> = second;
    let mut last: Vec<u8> = rest;
    file.append(&mut more);
    file.append(&mut last);
    proof {
        let p = x.len() as int;
        assert(0 * p == 0 && 1 * p == p && (0 + 1) * p == p && (1 + 1) * p == 2 * p) by (nonlinear_arith);
        assert(page_at(file@, p, 0) =~= x);
        assert(page_at(file@, p, 1) =~= y);
    }
    file
}

/// A page that was copied with its overflow is read the same.
proof fn lemma_copied_page(a: Pages, b: Pages, q: Pgid, over: int)
    requires
        a.page_size == b.page_size,
        a.page_size >= 16,
        b.image@.len() <= a.image@.len(),
        forall|i: int| 2 * a.page_size <= i < b.image@.len() ==> b.image@[i] == a.image@[i],
        q >= 2,
        a.has(q) || b.has(q),
        over == header_of(if a.has(q) {
            a.image@.skip(q * a.page_size)
        } else {
            b.image@.skip(q * a.page_size)
        }).overflow,
        (q + over + 1) * a.page_size <= b.image@.len(),
    ensures
        a.has(q),
        b.has(q),
        b.bytes(q) == a.bytes(q),
{
    let ps = a.page_size as int;
    let start = q * ps;
    assert(start >= 2 * ps && (q + over + 1) * ps == start + (over + 1) * ps && (over + 1) * ps >= ps) by (nonlinear_arith)
        requires
            q >= 2,
            over >= 0,
            ps >= 16,
            start == q * ps,
    ;
    let x = a.image@.skip(start);
    let y = b.image@.skip(start);
    assert forall|i: int| 0 <= i < 16 implies #[trigger] x[i] == y[i] by {
        assert(b.image@[start + i] == a.image@[start + i]);
    }
    assert(header_of(x) == header_of(y));
    assert(b.bytes(q) =~= a.bytes(q));
}

/// A copy is a database by itself: its meta is the one that was copied, and it holds what the other
/// one holds.
pub proof fn lemma_copy_opens(pages: Pages, copy: Pages, meta: Meta, base: Base)
    requires
        stored(pages, meta, base),
        meta_fits(meta, pages.page_size as int),
        meta.freelist > 1,
        meta.pgid * pages.page_size <= pages.image@.len(),
        copy.page_size == pages.page_size,
        copied(pages.image@, copy.image@, meta),
    ensures
        picked(copy.image@) == Some(Meta { checksum: meta_sum(meta), ..meta }),
        stored(copy, meta, base),
{
    let ps = pages.page_size as int;
    assert(2 * ps <= meta.pgid * ps) by (nonlinear_arith)
        requires
            2 <= meta.pgid,
            ps > 0,
    ;
    lemma_copy_stored(pages, copy, meta, base);
    lemma_copy_picked(copy.image@, ps, meta);
}

proof fn lemma_copy_stored(pages: Pages, copy: Pages, meta: Meta, base: Base)
    requires
        stored(pages, meta, base),
        meta_fits(meta, pages.page_size as int),
        meta.freelist > 1,
        meta.pgid * pages.page_size <= pages.image@.len(),
        copy.page_size == pages.page_size,
        copied(pages.image@, copy.image@, meta),
    ensures
        stored(copy, meta, base),
{
    let ps = pages.page_size as int;
    assert forall|q: Pgid| #[trigger] base.old.contains(q) implies copy.has(q) && copy.bytes(q) == base.store[q] by {
        assert(base.page_ok(q));
        let over = base.forest[q].over() as int;
        assert((q + over + 1) * ps <= meta.pgid * ps) by (nonlinear_arith)
            requires
                q + over < meta.pgid,
                ps > 0,
        ;
        lemma_first_bytes(pages, q);
        lemma_copied_page(pages, copy, q, over);
    }
    assert(list_known(copy, meta, base)) by {
        reveal(list_known);
        let q = meta.freelist;
        if q != PGID_NO_FREELIST {
            if pages.has(q) {
                let over = base.list_over as int;
                assert((q + over + 1) * ps <= meta.pgid * ps) by (nonlinear_arith)
                    requires
                        q + over < meta.pgid,
                        ps > 0,
                ;
                lemma_first_bytes(pages, q);
                lemma_copied_page(pages, copy, q, over);
            } else if copy.has(q) {
                let over = header_of(copy.image@.skip(q * ps)).overflow as int;
                assert((q + over + 1) * ps == q * ps + (over + 1) * ps) by (nonlinear_arith);
                lemma_copied_page(pages, copy, q, over);
            }
        }
    }
}

/// The header of a page is at its start.
proof fn lemma_first_bytes(pages: Pages, q: Pgid)
    requires
        pages.has(q),
        pages.page_size >= 16,
    ensures
        header_of(pages.bytes(q)) == header_of(pages.image@.skip(q * pages.page_size)),
{
    let start = q * pages.page_size;
    let x = pages.image@.skip(start);
    let y = pages.bytes(q);
    let over = header_of(x).overflow as int;
    assert((over + 1) * pages.page_size >= 16 && start >= 0) by (nonlinear_arith)
        requires
            over >= 0,
            pages.page_size >= 16,
            start == q * pages.page_size,
            q >= 0,
    ;
    assert forall|i: int| 0 <= i < 16 implies #[trigger] x[i] == y[i] by {
    }
}

proof fn lemma_copy_picked(copy: Seq<u8>, ps: int, meta: Meta)
    requires
        page_size_ok(ps),
        meta_fits(meta, ps),
        2 * ps <= copy.len(),
        copied(copy, copy, meta),
    ensures
        picked(copy) == Some(Meta { checksum: meta_sum(meta), ..meta }),
{
    let m = (meta.txid % 2) as int;
    let zero = page_at(copy, ps, 0);
    assert(0 * ps == 0 && (0 + 1) * ps == ps) by (nonlinear_arith);
    assert(meta_at(zero, 16) == meta_at(copy, 16)) by {
        assert forall|i: int| 0 <= i < 80 implies #[trigger] zero[i] == copy[i] by {
        }
        lemma_meta_same(zero, copy);
    }
    lemma_meta_page(page_at(copy, ps, m), meta);
    if meta.txid > 0 {
        lemma_meta_page(page_at(copy, ps, 1 - m), Meta { txid: (meta.txid - 1) as u64, ..meta });
    } else {
        let other = page_at(copy, ps, 1);
        assert(meta_at(other, 16).magic == 0) by {
            reveal(meta_at);
            assert(other[16] == 0 && other[17] == 0 && other[18] == 0 && other[19] == 0);
        }
        assert(!meta_at(other, 16).valid());
    }
    lemma_picks_newest(copy, ps, meta);
}

/// A copy is as long as the database says it is, has every page but the two first as it was, and has a
/// second meta that leads to the same as the first one, as an older transaction, should that be lost.
pub proof fn lemma_copy_metas(image: Seq<u8>, copy: Seq<u8>, meta: Meta, i: int)
    requires
        copied(image, copy, meta),
        meta.magic == MAGIC,
        meta.version == VERSION,
        meta.txid > 0,
    ensures
        ({
            let ps = meta.page_size as int;
            let m = (meta.txid % 2) as int;
            let first = meta_at(page_at(copy, ps, m), 16);
            let second = meta_at(page_at(copy, ps, 1 - m), 16);
            &&& copy.len() == meta.pgid * ps
            &&& 2 * ps <= i < copy.len() ==> copy[i] == image[i]
            &&& first.valid() && second.valid()
            &&& first.txid == meta.txid
            &&& second.txid == meta.txid - 1
            &&& first.root == meta.root && second.root == meta.root
            &&& first.freelist == meta.freelist && second.freelist == meta.freelist
            &&& first.pgid == meta.pgid && second.pgid == meta.pgid
            &&& first.page_size == ps && second.page_size == ps
        }),
{
    let ps = meta.page_size as int;
    let m = (meta.txid % 2) as int;
    let older = Meta { txid: (meta.txid - 1) as u64, ..meta };
    lemma_meta_page(page_at(copy, ps, m), meta);
    lemma_meta_page(page_at(copy, ps, 1 - m), older);
    assert(meta_prefix(Meta { checksum: meta_sum(meta), ..meta }) == meta_prefix(meta));
    assert(meta_prefix(Meta { checksum: meta_sum(older), ..older }) == meta_prefix(older));
}

} // verus!
