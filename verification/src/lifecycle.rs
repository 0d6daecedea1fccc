//! How a transaction begins and ends.
use vstd::prelude::*;
use vstd::slice::slice_to_vec;
use crate::closing::open_contents;
use crate::contents::contents;
use crate::error::{Error, Result};
use crate::freelist::{lemma_write_read, written_list, Freelist, FreelistV, PendingV};
use crate::ledger::{ledger, listed, since};
use crate::node::{Base, Pages};
use crate::page::{Meta, PGID_NO_FREELIST, Pgid, Txid};
use crate::pgids::{freelist_ok, freelist_seq, freelist_size, sorted};
use crate::plan::CommitPlan;
use crate::reach::lemma_holds_refs;
use crate::reclaim::{free_pages, unused};
use crate::recovery::{lemma_new_stored, lemma_next_begins, written_out};
use crate::snapshot::{can_begin, clear, spent, stored};
use crate::spans::valid_id;
use crate::stats::{Stats, TxStats};
use crate::text::{decimal, push_decimal};
use crate::tx::{default_merge, default_split, list_known, list_own, total, TxInner};
use crate::writer::{apart, covers, spare};

verus! {

// ---------------------------------------------------------------------------------------------
// Reading pages.

/// Why a page that begins behind the end cannot be read.
pub open spec fn past_text(p: Pgid, len: int) -> Seq<char> {
    "page "@ + decimal(p as nat) + " starts past mmap ("@ + decimal(len as nat) + " bytes)"@
}

/// Why a page that ends behind the end cannot be read.
pub open spec fn cut_text(p: Pgid) -> Seq<char> {
    "page "@ + decimal(p as nat) + " overflow extends past mmap"@
}

/// Why page `p` cannot be read.
pub open spec fn unreadable(pages: Pages, p: Pgid) -> Option<Seq<char>> {
    if pages.has(p) {
        None
    } else if p * pages.page_size + 16 > pages.image@.len() {
        Some(past_text(p, pages.image@.len() as int))
    } else {
        Some(cut_text(p))
    }
}

impl<'a> Pages<'a> {
    /// Page `p` with its overflow, if it lies inside the image.
    pub fn find(&self, p: Pgid) -> (r: Result<&'a [u8]>)
        requires
            self.page_size > 0,
        ensures
            match unreadable(*self, p) {
                None => r matches Ok(page) && page@ == self.bytes(p),
                Some(t) => r matches Err(Error::Corrupt(text)) && text@ == t,
            },
    {
        if self.holds(p) {
            return Ok(self.page(p));
        }
        let len: usize = self.image.len();
        let mut text: String = "page ".to_string();
        push_decimal(&mut text, p);
        proof {
            assert(p * self.page_size <= 0xFFFF_FFFF_FFFF_FFFF * 0xFFFF_FFFF_FFFF_FFFF) by (nonlinear_arith)
                requires
                    0 <= p <= 0xFFFF_FFFF_FFFF_FFFF,
                    0 <= self.page_size <= 0xFFFF_FFFF_FFFF_FFFF,
            ;
        }
        if p as u128 * self.page_size as u128 + 16 > len as u128 {
            text.append(" starts past mmap (");
            push_decimal(&mut text, len as u64);
            text.append(" bytes)");
        } else {
            text.append(" overflow extends past mmap");
        }
        Err(Error::Corrupt(text))
    }
}

/// A copy of page `p` with its overflow.
pub fn read_page(mapped: &Option<Pages>, p: Pgid) -> (r: Result<Vec<u8>>)
    requires
        *mapped matches Some(pages) ==> pages.page_size > 0,
    ensures
        match *mapped {
            None => r == Err::<Vec<u8>, Error>(Error::InvalidMapping),
            Some(pages) => match unreadable(pages, p) {
                None => r matches Ok(page) && page@ == pages.bytes(p),
                Some(t) => r matches Err(Error::Corrupt(text)) && text@ == t,
            },
        },
{
    match mapped {
        None => Err(Error::InvalidMapping),
        Some(pages) => match pages.find(p) {
            Ok(page) => Ok(slice_to_vec(page)),
            Err(e) => Err(e),
        },
    }
}

/// The freelist page that a meta names can be taken over by a list.
pub open spec fn list_fits(page: Seq<u8>, list: FreelistV) -> bool {
    &&& freelist_ok(page)
    &&& freelist_seq(page).no_duplicates()
    &&& forall|p: Pgid| #[trigger]
        freelist_seq(page).contains(p) ==> valid_id(p) && !list.pending_pages().contains(p)
}

/// Takes over the freelist that is in the file. Where none was stored, every page is free that
/// nothing uses.
pub fn load_freelist(mapped: &Option<Pages>, meta: &Meta, fl: &mut Freelist) -> (r: Result<()>)
    requires
        old(fl).inv(),
        *mapped matches Some(pages) ==> {
            &&& pages.page_size > 0
            &&& meta.freelist != PGID_NO_FREELIST && pages.has(meta.freelist) ==> list_fits(
                pages.bytes(meta.freelist),
                old(fl)@,
            )
            &&& meta.freelist == PGID_NO_FREELIST ==> (exists|base: Base| #[trigger] stored(pages, *meta, base))
                && old(fl)@.pending_pages() == Set::<Pgid>::empty()
        },
    ensures
        final(fl).inv(),
        match *mapped {
            None => r == Err::<(), Error>(Error::InvalidMapping) && final(fl)@ == old(fl)@,
            Some(pages) => if meta.freelist == PGID_NO_FREELIST {
                &&& r is Ok
                &&& forall|base: Base| #[trigger]
                    stored(pages, *meta, base) ==> final(fl)@ == (FreelistV {
                        free: unused(base.forest[meta.root.root], meta.pgid),
                        ..old(fl)@
                    })
            } else {
                match unreadable(pages, meta.freelist) {
                    None => {
                        &&& r is Ok
                        &&& final(fl)@ == (FreelistV {
                            free: freelist_seq(pages.bytes(meta.freelist)).to_set(),
                            ..old(fl)@
                        })
                    },
                    Some(t) => {
                        &&& r matches Err(Error::Corrupt(text)) && text@ == t
                        &&& final(fl)@ == old(fl)@
                    },
                }
            },
        },
{
    let pages: &Pages = match mapped {
        Some(pages) => pages,
        None => {
            return Err(Error::InvalidMapping);
        },
    };
    if !meta.is_freelist_persisted() {
        let ids: Vec<Pgid> = free_pages(pages, meta);
        proof {
            let base = choose|base: Base| #[trigger] stored(*pages, *meta, base);
            assert forall|p: Pgid| #[trigger] ids@.contains(p) implies valid_id(p) by {
                assert(ids@.to_set().contains(p));
                assert(unused(base.forest[meta.root.root], meta.pgid).contains(p));
            }
        }
        fl.init(ids);
        return Ok(());
    }
    match pages.find(meta.freelist) {
        Ok(page) => {
            fl.read_page(page);
            Ok(())
        },
        Err(e) => Err(e),
    }
}

// ---------------------------------------------------------------------------------------------
// Beginning.

/// A transaction can begin with a list that lists no other pages.
pub proof fn lemma_clear_less(pages: Pages, meta: Meta, base: Base, list: FreelistV, less: FreelistV)
    requires
        stored(pages, meta, base),
        clear(meta, base, list),
        less.ok(),
        less.all().subset_of(list.all()),
        forall|p: Pgid| #[trigger]
            less.allocs.contains_key(p) && less.allocs[p] == meta.txid ==> list.allocs.contains_key(p)
                && list.allocs[p] == meta.txid,
        forall|p: Pgid| #[trigger]
            less.pending_of(meta.txid).pages.contains_key(p) ==> less.pending_of(meta.txid).pages[p] != meta.txid,
    ensures
        clear(meta, base, less),
{
    let root = meta.root.root;
    let t = base.forest[root];
    assert forall|p: Pgid| #[trigger] t.refs(p) + list_own(base, p) + spare(less, meta.pgid, p) <= 1 by {
        assert(t.refs(p) + list_own(base, p) + spare(list, meta.pgid, p) <= 1);
        assert(listed(less, p) <= listed(list, p));
    }
    assert forall|q: Pgid, p: Pgid| #[trigger] covers(base, q, p) implies !less.free.contains(p) && p < meta.pgid by {
        assert(p < meta.pgid && !list.free.contains(p));
        if base.forest.contains_key(q) && q <= p <= q + base.forest[q].over() {
            assert(base.page_ok(q));
            assert(base.page_ok(root));
            assert(base.old.contains(q));
            lemma_holds_refs(base, t, q, p);
        }
        assert(t.refs(p) + list_own(base, p) >= 1);
        assert(t.refs(p) + list_own(base, p) + spare(less, meta.pgid, p) <= 1);
        if less.free.contains(p) {
            assert(less.all().contains(p));
        }
    }
    assert(!less.free.contains(1)) by {
        if less.free.contains(1) {
            assert(less.all().contains(1));
            assert(list.all().contains(1));
            assert(list.pending_pages().contains(1));
            let u = choose|u: Txid| #[trigger] list.pending.contains_key(u) && list.pending[u].pages.contains_key(1);
            assert(list.pending.contains_key(u) && list.pending[u].pages.contains_key(1));
        }
    }
    assert forall|p: Pgid| #[trigger] less.all().contains(p) implies p < base.limit by {
        assert(list.all().contains(p));
    }
}

/// The meta that a transaction begins with.
pub open spec fn begun_meta(meta: Meta, writable: bool) -> Meta {
    if writable {
        Meta { txid: (meta.txid + 1) as u64, ..meta }
    } else {
        meta
    }
}

/// Why no transaction can begin.
pub open spec fn begin_refused(opened: bool, read_only: bool, mapped: bool, writable: bool) -> Option<Error> {
    if !opened {
        Some(Error::DatabaseNotOpen)
    } else if writable && read_only {
        Some(Error::DatabaseReadOnly)
    } else if !mapped {
        Some(Error::InvalidMapping)
    } else {
        None
    }
}

/// A freelist as a new transaction leaves it: a writer lets all be allocated that no reader needs,
/// and a reader is recorded.
pub open spec fn begun_list(before: FreelistV, after: FreelistV, txid: Txid, writable: bool) -> bool {
    if writable {
        &&& sorted(after.readonly)
        &&& after.readonly.to_multiset() == before.readonly.to_multiset()
        &&& after == (FreelistV { readonly: after.readonly, ..before }).release_pending_v()
        &&& after.all() == before.all()
    } else {
        after == (FreelistV { readonly: before.readonly.push(txid), ..before })
    }
}

/// Begins a transaction on the meta that was committed last.
pub fn begin<'a>(
    opened: bool,
    read_only: bool,
    mapped: Option<Pages<'a>>,
    committed: &Meta,
    fl: &mut Freelist,
    writable: bool,
) -> (r: Result<TxInner<'a>>)
    requires
        old(fl).inv(),
        writable ==> committed.txid < u64::MAX,
        begin_refused(opened, read_only, mapped is Some, writable) is None ==> can_begin(
            mapped->0,
            begun_meta(*committed, writable),
            old(fl)@,
            writable,
        ),
    ensures
        final(fl).inv(),
        match begin_refused(opened, read_only, mapped is Some, writable) {
            Some(e) => r == Err::<TxInner<'a>, Error>(e) && final(fl)@ == old(fl)@,
            None => {
                &&& begun_list(old(fl)@, final(fl)@, committed.txid, writable)
                &&& r matches Ok(tx) && {
                    &&& tx.good()
                    &&& writable ==> tx.sound(final(fl)@)
                    &&& tx.pages == mapped->0
                    &&& tx.meta == begun_meta(*committed, writable)
                    &&& tx.writable == writable
                    &&& !tx.managed
                    &&& !tx.closed
                    &&& tx.opened
                    &&& tx.stats == TxStats::zero()
                    &&& tx.buckets@.len() == 1
                    &&& tx.has(0)
                    &&& tx.buckets@[0].header == committed.root
                    &&& tx.buckets@[0].root_node is None
                    &&& tx.buckets@[0].inline_page is None
                    &&& tx.buckets@[0].parent == 0
                    &&& tx.buckets@[0].name@.len() == 0
                    &&& tx.buckets@[0].subbuckets@.len() == 0
                    &&& tx.buckets@[0].split_at == default_split(mapped->0.page_size as int)
                    &&& tx.buckets@[0].merge_at == default_merge(mapped->0.page_size as int)
                    &&& tx.base@.limit == committed.pgid
                    &&& forall|base: Base| #[trigger]
                        stored(mapped->0, tx.meta, base) ==> open_contents(tx.buckets@, tx.base@, 0) == contents(
                            base.forest[tx.meta.root.root],
                        ) && tx.items(0) == base.forest[tx.meta.root.root].items()
                    &&& forall|base: Base| #[trigger]
                        stored(mapped->0, tx.meta, base) && spent(tx.meta, base, old(fl)@) ==> tx.full(final(fl)@)
                }
            },
        },
{
    if !opened {
        return Err(Error::DatabaseNotOpen);
    }
    if writable && read_only {
        return Err(Error::DatabaseReadOnly);
    }
    let pages: Pages<'a> = match mapped {
        Some(pages) => pages,
        None => {
            return Err(Error::InvalidMapping);
        },
    };
    let mut meta: Meta = committed.clone();
    let ghost list0 = fl@;
    if writable {
        meta.txid = meta.txid + 1;
        fl.release_pending_pages();
        proof {
            fl.lemma_inv();
            let base = choose|base: Base| #[trigger] stored(pages, meta, base) && clear(meta, base, list0);
            lemma_released(list0, fl@, meta.txid);
            lemma_clear_less(pages, meta, base, list0, fl@);
        }
    } else {
        fl.add_readonly_txid(meta.txid);
    }
    let tx: TxInner<'a> = TxInner::new(pages, meta, writable, fl);
    proof {
        assert forall|base: Base| #[trigger] stored(pages, meta, base) && spent(meta, base, list0) implies tx.full(fl@) by {
            assert(fl@.all() =~= list0.all());
            assert forall|p: Pgid| #[trigger]
                base.forest[meta.root.root].refs(p) + list_own(base, p) + spare(fl@, meta.pgid, p) == (if p <= 1 {
                    0nat
                } else {
                    1nat
                }) by {
                assert(base.forest[meta.root.root].refs(p) + list_own(base, p) + spare(list0, meta.pgid, p) == (
                if p <= 1 {
                    0nat
                } else {
                    1nat
                }));
            }
            assert(spent(meta, base, fl@));
        }
    }
    Ok(tx)
}

/// Letting freed pages be allocated touches no record of an allocation.
proof fn lemma_released(list: FreelistV, after: FreelistV, txid: Txid)
    requires
        list.ok(),
        after == (FreelistV { readonly: after.readonly, ..list }).release_pending_v(),
        forall|p: Pgid| #[trigger]
            list.pending_of(txid).pages.contains_key(p) ==> list.pending_of(txid).pages[p] != txid,
    ensures
        after.allocs == list.allocs,
        forall|p: Pgid| #[trigger]
            after.pending_of(txid).pages.contains_key(p) ==> after.pending_of(txid).pages[p] != txid,
{
    let v = FreelistV { readonly: after.readonly, ..list };
    assert(v.pending_pages() =~= list.pending_pages());
    assert(v.ok());
    v.lemma_release_pending();
    assert forall|p: Pgid| #[trigger] after.pending_of(txid).pages.contains_key(p) implies after.pending_of(txid).pages[p]
        != txid by {
        assert(after.pending.contains_key(txid) && after.pending[txid].pages.contains_key(p));
        assert(list.pending.contains_key(txid));
        assert(list.pending_of(txid).pages.contains_key(p));
    }
}

// ---------------------------------------------------------------------------------------------
// Ending.

/// What the statistics say of the freelist when a writer is done.
pub open spec fn counted(before: Stats, list: FreelistV, page_size: int) -> Stats {
    Stats {
        free_page_n: list.free.len() as usize,
        pending_page_n: list.pending_pages().len() as usize,
        free_alloc: ((list.free.len() + list.pending_pages().len()) * page_size) as usize,
        freelist_inuse: freelist_size(list.all().len() as int) as usize,
        ..before
    }
}

/// The numbers of `counted` fit.
pub open spec fn countable(list: FreelistV, page_size: int) -> bool {
    &&& freelist_size(list.all().len() as int) <= usize::MAX
    &&& (list.free.len() + list.pending_pages().len()) * page_size <= usize::MAX
}

/// The statistics count every page of the freelist once, as free or as freed, and say how many bytes
/// these pages are and how many the list takes on its pages.
pub proof fn lemma_counted(before: Stats, list: FreelistV, page_size: int)
    requires
        list.ok(),
        countable(list, page_size),
        page_size > 0,
    ensures
        ({
            let s = counted(before, list, page_size);
            let n = list.all().len();
            &&& s.free_page_n == list.free.len()
            &&& s.free_page_n + s.pending_page_n == n
            &&& s.free_alloc == n * page_size
            &&& s.freelist_inuse == 16 + 8 * n + (if n < 65535 { 0int } else { 8 })
            &&& s.tx_n == before.tx_n
            &&& s.open_tx_n == before.open_tx_n
            &&& s.tx_stats == before.tx_stats
        }),
{
    assert forall|p: Pgid| list.pending_pages().contains(p) implies !list.free.contains(p) by {
        let t = choose|t: Txid| #[trigger] list.pending.contains_key(t) && list.pending[t].pages.contains_key(p);
        assert(list.pending.contains_key(t) && list.pending[t].pages.contains_key(p));
    }
    assert(list.free.disjoint(list.pending_pages()));
    vstd::set_lib::lemma_set_disjoint_lens(list.free, list.pending_pages());
    assert(list.free + list.pending_pages() =~= list.all());
    let n = list.all().len() as int;
    assert(n <= n * page_size) by (nonlinear_arith)
        requires
            n >= 0,
            page_size > 0,
    ;
    assert(n * page_size >= 0);
}

impl<'a> TxInner<'a> {
    /// Closes the transaction: a reader no longer keeps pages, and a writer leaves its numbers. A
    /// freelist that was not loaded is left alone.
    pub fn close_internal(&mut self, fl: &mut Freelist, stats: &mut Stats, loaded: bool, no_statistics: bool)
        requires
            old(fl).inv(),
            !old(self).closed && old(self).writable && !no_statistics ==> countable(
                old(fl)@,
                old(self).pages.page_size as int,
            ),
            old(self).pages.page_size > 0,
        ensures
            final(fl).inv(),
            *final(self) == (TxInner { closed: true, ..*old(self) }),
            *final(stats) == (if !old(self).closed && old(self).writable && !no_statistics {
                counted(*old(stats), old(fl)@, old(self).pages.page_size as int)
            } else {
                *old(stats)
            }),
            if old(self).closed || old(self).writable || !loaded {
                final(fl)@ == old(fl)@
            } else {
                &&& final(fl)@ == (FreelistV { readonly: final(fl)@.readonly, ..old(fl)@ })
                &&& final(fl)@.readonly.to_multiset() == old(fl)@.readonly.to_multiset().remove(old(self).meta.txid)
            },
    {
        if self.closed {
            return;
        }
        self.closed = true;
        if self.writable {
            if !no_statistics {
                proof {
                    let n = fl@.free.len() + fl@.pending_pages().len();
                    let ps = self.pages.page_size as int;
                    assert(n <= n * ps) by (nonlinear_arith)
                        requires
                            n >= 0,
                            ps >= 1,
                    ;
                }
                stats.free_page_n = fl.free_count();
                stats.pending_page_n = fl.pending_count();
                stats.free_alloc = (stats.free_page_n + stats.pending_page_n) * self.pages.page_size;
                stats.freelist_inuse = fl.estimated_write_page_size();
            }
        } else if loaded {
            fl.remove_readonly_txid(self.meta.txid);
        }
    }

    /// Ends the transaction without a trace: a writer takes back what it freed.
    pub fn rollback_internal(&mut self, fl: &mut Freelist, stats: &mut Stats, loaded: bool, no_statistics: bool)
        requires
            old(fl).inv(),
            old(self).pages.page_size > 0,
            !old(self).closed && old(self).writable ==> {
                let list = old(fl)@.rollback_v(old(self).meta.txid);
                &&& forall|p: Pgid| #[trigger]
                    old(fl)@.pending_of(old(self).meta.txid).pages.contains_key(p) ==> old(fl)@.pending_of(
                        old(self).meta.txid,
                    ).pages[p] != old(self).meta.txid
                &&& !no_statistics ==> countable(list, old(self).pages.page_size as int)
            },
        ensures
            final(fl).inv(),
            *final(self) == (TxInner { closed: true, ..*old(self) }),
            if old(self).closed {
                final(fl)@ == old(fl)@ && *final(stats) == *old(stats)
            } else if old(self).writable {
                let list = old(fl)@.rollback_v(old(self).meta.txid);
                &&& final(fl)@ == list
                &&& *final(stats) == (if no_statistics {
                    *old(stats)
                } else {
                    counted(*old(stats), list, old(self).pages.page_size as int)
                })
            } else {
                &&& *final(stats) == *old(stats)
                &&& if loaded {
                    &&& final(fl)@ == (FreelistV { readonly: final(fl)@.readonly, ..old(fl)@ })
                    &&& final(fl)@.readonly.to_multiset() == old(fl)@.readonly.to_multiset().remove(
                        old(self).meta.txid,
                    )
                } else {
                    final(fl)@ == old(fl)@
                }
            },
    {
        if self.closed {
            return;
        }
        if self.writable {
            fl.rollback(self.meta.txid);
        }
        self.close_internal(fl, stats, loaded, no_statistics);
    }

    /// Why a transaction cannot be rolled back.
    pub open spec fn rollback_refused(&self) -> Option<Error> {
        if self.managed {
            Some(Error::ManagedTx)
        } else if self.closed {
            Some(Error::TxClosed)
        } else {
            None
        }
    }

    /// Ends the transaction without a trace, where that is not left to the library.
    pub fn rollback(&mut self, fl: &mut Freelist, stats: &mut Stats, loaded: bool, no_statistics: bool) -> (r: Result<()>)
        requires
            old(fl).inv(),
            old(self).pages.page_size > 0,
            old(self).rollback_refused() is None && old(self).writable ==> {
                let list = old(fl)@.rollback_v(old(self).meta.txid);
                &&& forall|p: Pgid| #[trigger]
                    old(fl)@.pending_of(old(self).meta.txid).pages.contains_key(p) ==> old(fl)@.pending_of(
                        old(self).meta.txid,
                    ).pages[p] != old(self).meta.txid
                &&& !no_statistics ==> countable(list, old(self).pages.page_size as int)
            },
        ensures
            final(fl).inv(),
            match old(self).rollback_refused() {
                Some(e) => {
                    &&& r == Err::<(), Error>(e)
                    &&& *final(self) == *old(self)
                    &&& final(fl)@ == old(fl)@
                    &&& *final(stats) == *old(stats)
                },
                None => {
                    &&& r is Ok
                    &&& *final(self) == (TxInner { closed: true, ..*old(self) })
                    &&& if old(self).writable {
                        let list = old(fl)@.rollback_v(old(self).meta.txid);
                        &&& final(fl)@ == list
                        &&& *final(stats) == (if no_statistics {
                            *old(stats)
                        } else {
                            counted(*old(stats), list, old(self).pages.page_size as int)
                        })
                    } else {
                        &&& *final(stats) == *old(stats)
                        &&& if loaded {
                            &&& final(fl)@ == (FreelistV { readonly: final(fl)@.readonly, ..old(fl)@ })
                            &&& final(fl)@.readonly.to_multiset() == old(fl)@.readonly.to_multiset().remove(
                                old(self).meta.txid,
                            )
                        } else {
                            final(fl)@ == old(fl)@
                        }
                    }
                },
            },
    {
        if self.managed {
            return Err(Error::ManagedTx);
        }
        if self.closed {
            return Err(Error::TxClosed);
        }
        self.rollback_internal(fl, stats, loaded, no_statistics);
        Ok(())
    }
}

/// After a write transaction was rolled back, whatever it did, the next one can begin where it
/// began, and finds what it found.
pub proof fn lemma_rollback_begins(
    pages: Pages,
    meta: Meta,
    base: Base,
    list0: FreelistV,
    list1: FreelistV,
)
    requires
        stored(pages, meta, base),
        clear(meta, base, list0),
        since(list0, list1, meta.txid),
        ledger(list1, base, meta.txid),
        list1.rollback_v(meta.txid).ok(),
    ensures
        clear(meta, base, list1.rollback_v(meta.txid)),
        can_begin(pages, meta, list1.rollback_v(meta.txid), true),
{
    let list2 = list1.rollback_v(meta.txid);
    assert forall|p: Pgid| #[trigger] list2.all().contains(p) implies list0.all().contains(p) by {
        if !list2.free.contains(p) {
            let t = choose|t: Txid| #[trigger] list2.pending.contains_key(t) && list2.pending[t].pages.contains_key(p);
            assert(list2.pending.contains_key(t) && list2.pending[t].pages.contains_key(p));
            assert(list1.pending.contains_key(t));
            assert(list0.pending.contains_key(t) && list0.pending[t].pages.contains_key(p));
            assert(list0.pending_pages().contains(p));
        }
    }
    lemma_clear_less(pages, meta, base, list0, list2);
}

/// A database that was committed and closed can be opened again: with the freelist that is in the
/// file the next write transaction can begin, and it finds what was committed.
pub proof fn lemma_reopens(
    tx: TxInner,
    plan: CommitPlan,
    list0: FreelistV,
    list1: FreelistV,
    no_sync: bool,
    after: Pages,
    meta: Meta,
    list: FreelistV,
)
    requires
        tx.good(),
        tx.sound(list0),
        tx.committed(plan, list0, list1, no_sync),
        after.page_size == tx.pages.page_size,
        written_out(tx.pages.image@, after.image@, after.page_size as int, plan),
        meta.root == plan.meta.root,
        meta.freelist == plan.meta.freelist,
        meta.pgid == plan.meta.pgid,
        meta.txid > 0,
        list.pending == Map::<Txid, PendingV>::empty(),
        list.allocs == Map::<Pgid, Txid>::empty(),
        list.free == (if meta.freelist == PGID_NO_FREELIST {
            unused(plan.base@.forest[meta.root.root], meta.pgid)
        } else {
            freelist_seq(after.bytes(meta.freelist)).to_set()
        }),
    ensures
        meta.freelist != PGID_NO_FREELIST ==> after.has(meta.freelist) && list_fits(after.bytes(meta.freelist), list),
        can_begin(after, meta, list, true),
        contents(plan.base@.forest[meta.root.root]) == open_contents(tx.buckets@, tx.base@, 0),
{
    lemma_new_stored(tx, plan, list0, list1, no_sync, after);
    assert(list.pending_pages() =~= Set::<Pgid>::empty());
    if meta.freelist != PGID_NO_FREELIST {
        let page = after.bytes(meta.freelist);
        crate::recovery::lemma_new_list_page(plan, list1, after);
        let before = choose|before: Seq<u8>| #[trigger] written_list(list1, before, page);
        lemma_write_read(list1, before, page, list);
        assert(list.all() =~= list.free);
        assert(list.ok()) by {
            let ids = freelist_seq(page);
            assert forall|p: Pgid| #[trigger] list.free.contains(p) implies valid_id(p) by {
                assert(ids.contains(p));
            }
        }
        lemma_next_begins(tx, plan, list0, list1, no_sync, after, meta, list);
    } else {
        let b = plan.base@;
        let t = b.forest[meta.root.root];
        assert(stored(after, meta, b)) by {
            reveal(list_known);
        }
        assert forall|p: Pgid| #[trigger] t.refs(p) <= 1 && (t.refs(p) > 0 ==> p < meta.pgid) by {
            assert(t.refs(p) + list_own(b, p) + spare(list1, plan.meta.pgid, p) == total(tx.buckets@, tx.base@, p)
                + list_own(tx.base@, p) + spare(list0, tx.meta.pgid, p));
            assert(total(tx.buckets@, tx.base@, p) + list_own(tx.base@, p) + spare(list0, tx.meta.pgid, p) <= 1);
        }
        lemma_scanned(after, meta, b, list);
    }
}

/// The pages below `hwm` are finitely many.
proof fn lemma_below(hwm: Pgid)
    ensures
        Set::new(|p: Pgid| p < hwm).finite(),
    decreases hwm,
{
    let s = Set::new(|p: Pgid| p < hwm);
    if hwm == 0 {
        assert(s =~= Set::<Pgid>::empty());
    } else {
        let less: Pgid = (hwm - 1) as u64;
        lemma_below(less);
        assert(s =~= Set::new(|p: Pgid| p < less).insert(less));
    }
}

/// Where every page is free that nothing uses, the next write transaction can begin.
proof fn lemma_scanned(pages: Pages, meta: Meta, base: Base, list: FreelistV)
    requires
        stored(pages, meta, base),
        meta.freelist == PGID_NO_FREELIST,
        meta.txid > 0,
        apart(base),
        forall|p: Pgid| #[trigger]
            base.forest[meta.root.root].refs(p) <= 1 && (base.forest[meta.root.root].refs(p) > 0 ==> p < meta.pgid),
        list.pending == Map::<Txid, PendingV>::empty(),
        list.allocs == Map::<Pgid, Txid>::empty(),
        list.free == unused(base.forest[meta.root.root], meta.pgid),
    ensures
        clear(meta, base, list),
        can_begin(pages, meta, list, true),
{
    let root = meta.root.root;
    let t = base.forest[root];
    assert(base.list_pgid == 0) by {
        reveal(list_known);
    }
    assert(list.pending_pages() =~= Set::<Pgid>::empty());
    assert(list.all() =~= list.free);
    assert(list.free.finite()) by {
        lemma_below(meta.pgid);
        let s = Set::new(|p: Pgid| p < meta.pgid);
        assert(list.free =~= s.filter(|p: Pgid| 1 < p && t.refs(p) == 0));
    }
    assert forall|p: Pgid| #[trigger] t.refs(p) + list_own(base, p) + spare(list, meta.pgid, p) <= 1 by {
        assert(listed(list, p) == (if unused(t, meta.pgid).contains(p) { 1nat } else { 0nat }));
    }
    assert forall|q: Pgid, p: Pgid| #[trigger] covers(base, q, p) implies !list.free.contains(p) && p < meta.pgid by {
        assert(base.page_ok(q));
        assert(base.page_ok(root));
        assert(base.old.contains(q));
        lemma_holds_refs(base, t, q, p);
        assert(t.refs(p) >= 1);
    }
    assert(base.page_ok(root));
    assert(clear(meta, base, list));
}

} // verus!
