//! The freelist: pages that may be reused, and pages that may be reused once no open reader
//! needs them.
use std::collections::{HashMap, HashSet};
use vstd::prelude::*;
use crate::freeset::{taken, FreeSet, FreelistType};
use crate::page::{Pgid, Txid};
use crate::pgids::{estimated_freelist_page_size, freelist_ids, freelist_ok, freelist_seq, freelist_size, freelist_written, lemma_merge_contains, lemma_merge_strict, lemma_same_elements, lemma_sorted_distinct, merge_pgids, sort_pgids, sorted, strictly_sorted, write_freelist};
use crate::spans::{id_range, is_run, is_whole_run, lemma_add_range, map_keys, valid_id};

verus! {

broadcast use vstd::std_specs::hash::group_hash_axioms;

/// The pages that one transaction has freed.
struct TxPending {
    ids: Vec<Pgid>,
    alloc_tx: Vec<Txid>,
    last_release_begin: Txid,
}

/// The pages that one transaction has freed, each with the transaction that had allocated it
/// (zero if that is not known), and the start of the last range for which they were considered.
#[verifier::ext_equal]
pub struct PendingV {
    pub pages: Map<Pgid, Txid>,
    pub last_begin: Txid,
}

/// What a freelist holds.
#[verifier::ext_equal]
pub struct FreelistV {
    pub kind: FreelistType,
    /// The ids of the open read transactions.
    pub readonly: Seq<Txid>,
    /// Which transaction allocated a page, by the first page of the allocation.
    pub allocs: Map<Pgid, Txid>,
    /// The freed pages by the transaction that freed them.
    pub pending: Map<Txid, PendingV>,
    /// The pages that may be allocated.
    pub free: Set<Pgid>,
}

impl FreelistV {
    /// The freed pages that may not be allocated yet.
    pub open spec fn pending_pages(self) -> Set<Pgid> {
        Set::new(
            |p: Pgid|
                exists|t: Txid| #[trigger] self.pending.contains_key(t) && self.pending[t].pages.contains_key(p),
        )
    }

    /// All pages that are free or freed.
    pub open spec fn all(self) -> Set<Pgid> {
        self.free.union(self.pending_pages())
    }

    /// What transaction `t` has freed.
    pub open spec fn pending_of(self, t: Txid) -> PendingV {
        if self.pending.contains_key(t) {
            self.pending[t]
        } else {
            PendingV { pages: Map::empty(), last_begin: 0 }
        }
    }

    /// No page is listed twice.
    pub open spec fn ok(self) -> bool {
        &&& self.free.finite()
        &&& self.pending_pages().finite()
        &&& forall|p: Pgid| #[trigger] self.free.contains(p) ==> valid_id(p)
        &&& forall|t: Txid, p: Pgid|
            #[trigger] self.pending.contains_key(t) && #[trigger] self.pending[t].pages.contains_key(p)
                ==> 1 < p < u64::MAX && !self.free.contains(p)
        &&& forall|t: Txid, u: Txid, p: Pgid|
            #[trigger] self.pending.contains_key(t) && #[trigger] self.pending.contains_key(u)
                && #[trigger] self.pending[t].pages.contains_key(p) && t != u
                ==> !self.pending[u].pages.contains_key(p)
    }
}

impl PendingV {
    /// What is left after the pages allocated from transaction `begin` to transaction `end` are
    /// taken out.
    pub open spec fn without(self, begin: Txid, end: Txid) -> PendingV {
        PendingV {
            pages: Map::new(
                |p: Pgid| self.pages.contains_key(p) && !(begin <= self.pages[p] <= end),
                |p: Pgid| self.pages[p],
            ),
            last_begin: begin,
        }
    }
}

impl FreelistV {
    /// The list after transaction `txid` has freed the page `pgid` with its overflow pages.
    pub open spec fn free_v(self, txid: Txid, pgid: Pgid, overflow: u32) -> FreelistV {
        let alloc = if self.allocs.contains_key(pgid) { self.allocs[pgid] } else { 0 };
        let was = self.pending_of(txid);
        FreelistV {
            allocs: self.allocs.remove(pgid),
            pending: self.pending.insert(
                txid,
                PendingV {
                    pages: Map::new(
                        |p: Pgid| was.pages.contains_key(p) || pgid <= p <= pgid + overflow,
                        |p: Pgid| if pgid <= p <= pgid + overflow { alloc } else { was.pages[p] },
                    ),
                    last_begin: was.last_begin,
                },
            ),
            ..self
        }
    }

    /// The list after what transaction `txid` freed is in use again, and what it allocated is no
    /// longer recorded.
    pub open spec fn rollback_v(self, txid: Txid) -> FreelistV {
        let pages = self.pending_of(txid).pages;
        FreelistV {
            allocs: Map::new(
                |p: Pgid|
                    pages.contains_key(p) && pages[p] != 0 || self.allocs.contains_key(p) && self.allocs[p] != txid,
                |p: Pgid| if pages.contains_key(p) && pages[p] != 0 { pages[p] } else { self.allocs[p] },
            ),
            pending: self.pending.remove(txid),
            ..self
        }
    }

    /// The list after all that transactions up to `txid` freed may be allocated.
    pub open spec fn release_v(self, txid: Txid) -> FreelistV {
        let pending = Map::new(
            |t: Txid| self.pending.contains_key(t) && t > txid,
            |t: Txid| self.pending[t],
        );
        self.moved_to(pending)
    }

    /// Whether a pass over the transactions from `begin` to `end` looks at what `t` freed.
    pub open spec fn in_pass(self, t: Txid, begin: Txid, end: Txid) -> bool {
        begin <= t <= end && self.pending[t].last_begin != begin
    }

    /// Whether such a pass lets page `p`, which `t` freed, be allocated.
    pub open spec fn released_in(self, t: Txid, begin: Txid, end: Txid, p: Pgid) -> bool {
        self.in_pass(t, begin, end) && self.pending[t].pages.contains_key(p) && begin <= self.pending[t].pages[p] <= end
    }

    /// The list after the pages that were both allocated and freed by transactions from `begin`
    /// to `end` may be allocated.
    pub open spec fn range_v(self, begin: Txid, end: Txid) -> FreelistV {
        if begin > end {
            self
        } else {
            let pending = Map::new(
                |t: Txid|
                    self.pending.contains_key(t) && !(self.in_pass(t, begin, end)
                        && self.pending[t].without(begin, end).pages.dom() == Set::<Pgid>::empty()),
                |t: Txid|
                    if self.in_pass(t, begin, end) {
                        self.pending[t].without(begin, end)
                    } else {
                        self.pending[t]
                    },
            );
            self.moved_to(pending)
        }
    }

    /// The list after the freed pages that `pending` leaves out became free.
    pub open spec fn moved_to(self, pending: Map<Txid, PendingV>) -> FreelistV {
        let left = FreelistV { pending, ..self };
        FreelistV {
            pending,
            free: Set::new(
                |p: Pgid|
                    self.free.contains(p) || self.pending_pages().contains(p) && !left.pending_pages().contains(p),
            ),
            ..self
        }
    }

    /// Passes between each two neighbouring readers, from reader `i` on, and after the last one.
    pub open spec fn ranges_v(self, i: int, begin: Txid) -> FreelistV
        decreases self.readonly.len() - i,
    {
        if i < 0 || i >= self.readonly.len() {
            self.range_v(begin, u64::MAX)
        } else {
            let tid = self.readonly[i];
            let end: Txid = if tid > 0 { (tid - 1) as u64 } else { 0 };
            let next: Txid = if tid < u64::MAX { (tid + 1) as u64 } else { u64::MAX };
            self.range_v(begin, end).ranges_v(i + 1, next)
        }
    }

    /// The list after everything that no open reader needs may be allocated. The readers are
    /// sorted.
    pub open spec fn release_pending_v(self) -> FreelistV {
        let first: Txid = if self.readonly.len() > 0 { self.readonly[0] } else { u64::MAX };
        let below = if first > 0 { self.release_v((first - 1) as u64) } else { self };
        below.ranges_v(0, first)
    }

    /// `later` has some of the freed pages of `self` free, and is otherwise the same.
    pub open spec fn only_moved(self, later: FreelistV) -> bool {
        &&& forall|t: Txid| #[trigger] later.pending.contains_key(t) ==> self.pending.contains_key(t)
        &&& forall|t: Txid, p: Pgid|
            #[trigger] later.pending.contains_key(t) && #[trigger] later.pending[t].pages.contains_key(p)
                ==> self.pending[t].pages.contains_key(p) && self.pending[t].pages[p] == later.pending[t].pages[p]
        &&& forall|p: Pgid| #[trigger]
            later.free.contains(p) <==> self.free.contains(p) || self.pending_pages().contains(p)
                && !later.pending_pages().contains(p)
        &&& later.allocs == self.allocs
        &&& later.kind == self.kind
        &&& later.readonly == self.readonly
    }

    /// Moving freed pages to the free ones keeps the list sound and loses no page.
    pub proof fn lemma_only_moved(self, later: FreelistV)
        requires
            self.ok(),
            self.only_moved(later),
        ensures
            later.ok(),
            later.all() == self.all(),
    {
        assert forall|p: Pgid| later.pending_pages().contains(p) implies self.pending_pages().contains(p) by {
            let t = choose|t: Txid| #[trigger]
                later.pending.contains_key(t) && later.pending[t].pages.contains_key(p);
            assert(self.pending.contains_key(t) && self.pending[t].pages.contains_key(p));
        }
        assert(later.pending_pages().subset_of(self.pending_pages()));
        vstd::set_lib::lemma_set_subset_finite(self.pending_pages(), later.pending_pages());
        assert(later.free.subset_of(self.all()));
        vstd::set_lib::lemma_set_subset_finite(self.all(), later.free);
        assert forall|p: Pgid| #[trigger] later.free.contains(p) implies valid_id(p) by {
            if self.pending_pages().contains(p) {
                let t = choose|t: Txid| #[trigger]
                    self.pending.contains_key(t) && self.pending[t].pages.contains_key(p);
                assert(self.pending.contains_key(t) && self.pending[t].pages.contains_key(p));
            }
        }
        assert forall|t: Txid, p: Pgid|
            #[trigger] later.pending.contains_key(t) && #[trigger] later.pending[t].pages.contains_key(p)
                implies 1 < p < u64::MAX && !later.free.contains(p) by {
            assert(self.pending.contains_key(t) && self.pending[t].pages.contains_key(p));
            assert(later.pending_pages().contains(p));
        }
        assert forall|t: Txid, u: Txid, p: Pgid|
            #[trigger] later.pending.contains_key(t) && #[trigger] later.pending.contains_key(u)
                && #[trigger] later.pending[t].pages.contains_key(p) && t != u
                implies !later.pending[u].pages.contains_key(p) by {
            assert(self.pending.contains_key(t) && self.pending[t].pages.contains_key(p));
            assert(self.pending.contains_key(u));
        }
        assert(later.all() =~= self.all());
    }

    /// Releasing all pages of early transactions only moves pages.
    pub proof fn lemma_release(self, txid: Txid)
        ensures
            self.only_moved(self.release_v(txid)),
    {
        let later = self.release_v(txid);
        assert(later.pending_pages() == (FreelistV { pending: later.pending, ..self }).pending_pages());
    }

    /// A pass over a range of transactions only moves pages.
    pub proof fn lemma_range(self, begin: Txid, end: Txid)
        ensures
            self.only_moved(self.range_v(begin, end)),
    {
        let later = self.range_v(begin, end);
        if begin > end {
        } else {
            assert(later.pending_pages() == (FreelistV { pending: later.pending, ..self }).pending_pages());
        }
    }

    /// Passes between the readers only move pages.
    pub proof fn lemma_ranges(self, i: int, begin: Txid)
        requires
            self.ok(),
        ensures
            self.only_moved(self.ranges_v(i, begin)),
        decreases self.readonly.len() - i,
    {
        if i < 0 || i >= self.readonly.len() {
            self.lemma_range(begin, u64::MAX);
        } else {
            let tid = self.readonly[i];
            let end: Txid = if tid > 0 { (tid - 1) as u64 } else { 0 };
            let next: Txid = if tid < u64::MAX { (tid + 1) as u64 } else { u64::MAX };
            let later = self.range_v(begin, end);
            self.lemma_range(begin, end);
            self.lemma_only_moved(later);
            later.lemma_ranges(i + 1, next);
            later.lemma_only_moved(later.ranges_v(i + 1, next));
            self.lemma_moved_twice(later, later.ranges_v(i + 1, next));
        }
    }

    /// Moving pages twice only moves pages.
    proof fn lemma_moved_twice(self, later: FreelistV, last: FreelistV)
        requires
            self.only_moved(later),
            later.only_moved(last),
        ensures
            self.only_moved(last),
    {
        assert forall|p: Pgid| #[trigger] last.pending_pages().contains(p) implies later.pending_pages().contains(p) by {
            let t = choose|t: Txid| #[trigger] last.pending.contains_key(t) && last.pending[t].pages.contains_key(p);
            assert(last.pending.contains_key(t) && last.pending[t].pages.contains_key(p));
            assert(later.pending.contains_key(t) && later.pending[t].pages.contains_key(p));
        }
        assert forall|p: Pgid| #[trigger] later.pending_pages().contains(p) implies self.pending_pages().contains(p) by {
            let t = choose|t: Txid| #[trigger] later.pending.contains_key(t) && later.pending[t].pages.contains_key(p);
            assert(later.pending.contains_key(t) && later.pending[t].pages.contains_key(p));
            assert(self.pending.contains_key(t) && self.pending[t].pages.contains_key(p));
        }
    }

    /// Releasing what no reader needs only moves pages.
    pub proof fn lemma_release_pending(self)
        requires
            self.ok(),
        ensures
            self.only_moved(self.release_pending_v()),
    {
        let first: Txid = if self.readonly.len() > 0 { self.readonly[0] } else { u64::MAX };
        let below = if first > 0 { self.release_v((first - 1) as u64) } else { self };
        if first > 0 {
            self.lemma_release((first - 1) as u64);
        }
        self.lemma_only_moved(below);
        below.lemma_ranges(0, first);
        self.lemma_moved_twice(below, below.ranges_v(0, first));
    }
}

impl TxPending {
    spec fn inv(self) -> bool {
        &&& self.ids@.len() == self.alloc_tx@.len()
        &&& self.ids@.no_duplicates()
    }

    spec fn view(self) -> PendingV {
        PendingV {
            pages: Map::new(
                |p: Pgid| self.ids@.contains(p),
                |p: Pgid| self.alloc_tx@[self.ids@.index_of(p)],
            ),
            last_begin: self.last_release_begin,
        }
    }

    proof fn lemma_page(self, i: int)
        requires
            self.inv(),
            0 <= i < self.ids@.len(),
        ensures
            self@.pages.contains_key(self.ids@[i]),
            self@.pages[self.ids@[i]] == self.alloc_tx@[i],
    {
        assert(self.ids@.contains(self.ids@[i]));
        assert(self.ids@.index_of(self.ids@[i]) == i);
    }
}

impl TxPending {
    fn new() -> (p: Self)
        ensures
            p.inv(),
            p@ == (PendingV { pages: Map::empty(), last_begin: 0 }),
    {
        let p = TxPending { ids: Vec::new(), alloc_tx: Vec::new(), last_release_begin: 0 };
        assert(p@.pages =~= Map::<Pgid, Txid>::empty());
        p
    }

    fn push(&mut self, id: Pgid, alloc: Txid)
        requires
            old(self).inv(),
            !old(self)@.pages.contains_key(id),
        ensures
            final(self).inv(),
            final(self)@ == (PendingV { pages: old(self)@.pages.insert(id, alloc), ..old(self)@ }),
    {
        let ghost ids0 = self.ids@;
        let ghost v0 = self@;
        self.ids.push(id);
        self.alloc_tx.push(alloc);
        proof {
            assert(!ids0.contains(id));
            assert forall|i: int, j: int| 0 <= i < self.ids@.len() && 0 <= j < self.ids@.len() && i != j implies self.ids@[i]
                != self.ids@[j] by {
                if i == ids0.len() {
                    assert(ids0.contains(self.ids@[j]));
                }
                if j == ids0.len() {
                    assert(ids0.contains(self.ids@[i]));
                }
            }
            assert forall|p: Pgid| self@.pages.contains_key(p) <==> v0.pages.insert(id, alloc).contains_key(p) by {
                if ids0.contains(p) {
                    assert(self.ids@[ids0.index_of(p)] == p);
                }
                if self.ids@.contains(p) && p != id {
                    assert(ids0[self.ids@.index_of(p)] == p);
                }
                assert(self.ids@[ids0.len() as int] == id);
            }
            assert forall|p: Pgid| self@.pages.contains_key(p) implies self@.pages[p] == v0.pages.insert(
                id,
                alloc,
            )[p] by {
                if p == id {
                    self.lemma_page(ids0.len() as int);
                } else {
                    let i = ids0.index_of(p);
                    assert(ids0.contains(p));
                    self.lemma_page(i);
                }
            }
            assert(self@.pages =~= v0.pages.insert(id, alloc));
        }
    }

    fn take_at(&mut self, i: usize) -> (id: Pgid)
        requires
            old(self).inv(),
            i < old(self).ids@.len(),
        ensures
            final(self).inv(),
            id == old(self).ids@[i as int],
            final(self)@ == (PendingV { pages: old(self)@.pages.remove(id), ..old(self)@ }),
            final(self).ids@.len() == old(self).ids@.len() - 1,
            forall|j: int|
                0 <= j < i ==> #[trigger] final(self).alloc_tx@[j] == old(self).alloc_tx@[j],
    {
        let ghost t0 = *self;
        let id: Pgid = self.ids.swap_remove(i);
        self.alloc_tx.swap_remove(i);
        proof {
            let n = t0.ids@.len();
            assert forall|j: int| 0 <= j < n - 1 implies self.ids@[j] == t0.ids@[if j == i { n - 1 } else { j }]
                && self.alloc_tx@[j] == t0.alloc_tx@[if j == i { n - 1 } else { j }] by {
            }
            assert forall|p: Pgid| self@.pages.contains_key(p) <==> t0@.pages.remove(id).contains_key(p) by {
                if self.ids@.contains(p) {
                    let j = self.ids@.index_of(p);
                    assert(t0.ids@[if j == i { n - 1 } else { j }] == p);
                    assert(t0.ids@.contains(p));
                }
                if t0.ids@.contains(p) && p != id {
                    let j = t0.ids@.index_of(p);
                    assert(self.ids@[if j == n - 1 { i as int } else { j }] == p);
                }
            }
            assert forall|p: Pgid| self@.pages.contains_key(p) implies self@.pages[p] == t0@.pages[p] by {
                let j = self.ids@.index_of(p);
                assert(self.ids@.contains(p));
                self.lemma_page(j);
                t0.lemma_page(if j == i { n - 1 } else { j });
            }
            assert(self@.pages =~= t0@.pages.remove(id));
        }
        id
    }

    /// Takes out the pages allocated from transaction `begin` to transaction `end`.
    fn extract(&mut self, begin: Txid, end: Txid) -> (out: Vec<Pgid>)
        requires
            old(self).inv(),
        ensures
            final(self).inv(),
            final(self)@ == old(self)@.without(begin, end),
            out@.no_duplicates(),
            forall|p: Pgid| #[trigger]
                out@.contains(p) <==> old(self)@.pages.contains_key(p) && begin <= old(self)@.pages[p] <= end,
    {
        let ghost t0 = *self;
        let mut out: Vec<Pgid> = Vec::new();
        let mut i: usize = 0;
        while i < self.ids.len()
            invariant
                self.inv(),
                i <= self.ids@.len(),
                out@.no_duplicates(),
                forall|p: Pgid| #[trigger] self@.pages.contains_key(p) ==> t0@.pages.contains_key(p)
                    && t0@.pages[p] == self@.pages[p],
                forall|p: Pgid| #[trigger] out@.contains(p) <==> t0@.pages.contains_key(p)
                    && !self@.pages.contains_key(p),
                forall|p: Pgid| #[trigger] out@.contains(p) ==> begin <= t0@.pages[p] <= end,
                forall|j: int| 0 <= j < i ==> !(begin <= #[trigger] self.alloc_tx@[j] <= end),
                self@.last_begin == t0@.last_begin,
            decreases self.ids@.len() - i,
        {
            let atx: Txid = self.alloc_tx[i];
            if atx < begin || atx > end {
                i = i + 1;
            } else {
                proof {
                    self.lemma_page(i as int);
                }
                let ghost before = *self;
                let ghost out0 = out@;
                let id: Pgid = self.take_at(i);
                out.push(id);
                assert forall|p: Pgid| #[trigger] out@.contains(p) <==> out0.contains(p) || p == id by {
                    if out0.contains(p) {
                        assert(out@[out0.index_of(p)] == p);
                    }
                    assert(out@[out0.len() as int] == id);
                    if out@.contains(p) && p != id {
                        assert(out0[out@.index_of(p)] == p);
                    }
                }
                assert(!out0.contains(id));
                assert forall|a: int, b: int| 0 <= a < out@.len() && 0 <= b < out@.len() && a != b implies out@[a]
                    != out@[b] by {
                    if a == out0.len() {
                        assert(out0.contains(out@[b]));
                    }
                    if b == out0.len() {
                        assert(out0.contains(out@[a]));
                    }
                }
            }
        }
        let ghost t1 = *self;
        self.last_release_begin = begin;
        proof {
            assert(self@.pages =~= t1@.pages);
            assert forall|p: Pgid| self@.pages.contains_key(p) implies !(begin <= self@.pages[p] <= end) by {
                let j = self.ids@.index_of(p);
                assert(self.ids@.contains(p));
                self.lemma_page(j);
            }
            assert forall|p: Pgid| self@.pages.contains_key(p) <==> t0@.without(begin, end).pages.contains_key(p) by {
                if t0@.pages.contains_key(p) && !self@.pages.contains_key(p) {
                    assert(out@.contains(p));
                }
            }
            assert(self@.pages =~= t0@.without(begin, end).pages);
        }
        out
    }
}

/// Appending one list without repetitions to another, of other ids, gives one without
/// repetitions.
proof fn lemma_append(a: Seq<Pgid>, b: Seq<Pgid>)
    requires
        a.no_duplicates(),
        b.no_duplicates(),
        forall|p: Pgid| #[trigger] a.contains(p) ==> !b.contains(p),
    ensures
        (a + b).no_duplicates(),
        forall|p: Pgid| #[trigger] (a + b).contains(p) <==> a.contains(p) || b.contains(p),
{
    let c = a + b;
    assert forall|i: int, j: int| 0 <= i < c.len() && 0 <= j < c.len() && i != j implies c[i] != c[j] by {
        if i < a.len() && j >= a.len() {
            assert(a.contains(c[i]));
            assert(b[j - a.len()] == c[j]);
            assert(b.contains(c[j]));
        }
        if j < a.len() && i >= a.len() {
            assert(a.contains(c[j]));
            assert(b[i - a.len()] == c[i]);
            assert(b.contains(c[i]));
        }
    }
    assert forall|p: Pgid| #[trigger] c.contains(p) <==> a.contains(p) || b.contains(p) by {
        if c.contains(p) {
            let i = c.index_of(p);
            if i < a.len() {
                assert(a[i] == p);
            } else {
                assert(b[i - a.len()] == p);
            }
        }
        if a.contains(p) {
            assert(c[a.index_of(p)] == p);
        }
        if b.contains(p) {
            assert(c[a.len() + b.index_of(p)] == p);
        }
    }
}

/// The freelist of a database.
pub struct Freelist {
    readonly_txids: Vec<Txid>,
    allocs: HashMap<Pgid, Txid>,
    cache: HashSet<Pgid>,
    pending: HashMap<Txid, TxPending>,
    pages: FreeSet,
}

impl Default for Freelist {
    fn default() -> (f: Self)
        ensures
            f.inv(),
            f@ == (FreelistV {
                kind: FreelistType::Array,
                readonly: Seq::empty(),
                allocs: Map::empty(),
                pending: Map::empty(),
                free: Set::empty(),
            }),
    {
        Freelist::new(FreelistType::Array)
    }
}

impl Freelist {
    /// What the freelist holds.
    pub closed spec fn view(&self) -> FreelistV {
        FreelistV {
            kind: self.pages.spec_kind(),
            readonly: self.readonly_txids@,
            allocs: self.allocs@,
            pending: Map::new(
                |t: Txid| self.pending@.contains_key(t),
                |t: Txid| self.pending@[t]@,
            ),
            free: self.pages@,
        }
    }

    /// The representation is sound: no page is listed twice and the index of all listed pages
    /// agrees with the lists.
    pub closed spec fn inv(&self) -> bool {
        &&& self@.ok()
        &&& self.pages.inv()
        &&& forall|t: Txid| #[trigger] self.pending@.contains_key(t) ==> self.pending@[t].inv()
        &&& self.cache@ == self@.all()
    }

    /// What `inv` says of the pages.
    pub proof fn lemma_inv(&self)
        requires
            self.inv(),
        ensures
            self@.ok(),
    {
    }

    /// An empty freelist.
    pub fn new(kind: FreelistType) -> (f: Self)
        ensures
            f.inv(),
            f@ == (FreelistV {
                kind,
                readonly: Seq::empty(),
                allocs: Map::empty(),
                pending: Map::empty(),
                free: Set::empty(),
            }),
    {
        let f = Freelist {
            readonly_txids: Vec::new(),
            allocs: HashMap::new(),
            cache: HashSet::new(),
            pending: HashMap::new(),
            pages: FreeSet::new(kind),
        };
        assert(f@.pending =~= Map::<Txid, PendingV>::empty());
        assert(f@.pending_pages() =~= Set::<Pgid>::empty());
        assert(f@.all() =~= Set::<Pgid>::empty());
        f
    }

    /// The number of allocations that are recorded.
    pub fn alloc_count(&self) -> (n: usize)
        ensures
            n == self@.allocs.len(),
    {
        self.allocs.len()
    }

    /// How the free pages are indexed.
    pub fn kind(&self) -> (k: FreelistType)
        ensures
            k == self@.kind,
    {
        self.pages.kind()
    }

    /// The number of pages that may be allocated.
    pub fn free_count(&self) -> (n: usize)
        requires
            self.inv(),
            self@.free.len() <= usize::MAX,
        ensures
            n == self@.free.len(),
    {
        self.pages.count() as usize
    }

    /// The pages that may be allocated, sorted.
    pub fn free_page_ids(&self) -> (ids: Vec<Pgid>)
        requires
            self.inv(),
        ensures
            strictly_sorted(ids@),
            ids@.to_set() == self@.free,
    {
        self.pages.to_ids()
    }

    /// The freed pages that may not be allocated yet, in no particular order.
    fn pending_ids(&self) -> (ids: Vec<Pgid>)
        requires
            self.inv(),
        ensures
            ids@.no_duplicates(),
            ids@.to_set() == self@.pending_pages(),
    {
        let keys: Vec<Txid> = map_keys(&self.pending);
        let mut ids: Vec<Pgid> = Vec::new();
        let mut k: usize = 0;
        while k < keys.len()
            invariant
                k <= keys@.len(),
                self.inv(),
                keys@.no_duplicates(),
                forall|t: Txid| #[trigger] keys@.contains(t) <==> self.pending@.contains_key(t),
                ids@.no_duplicates(),
                forall|p: Pgid| #[trigger] ids@.contains(p) <==> exists|j: int|
                    0 <= j < k && self@.pending[#[trigger] keys@[j]].pages.contains_key(p),
            decreases keys@.len() - k,
        {
            let t: Txid = keys[k];
            assert(keys@.contains(keys@[k as int]));
            let ghost before = ids@;
            let more: &TxPending = self.pending.get(&t).unwrap();
            ids.extend_from_slice(more.ids.as_slice());
            proof {
                assert(ids@ =~= before + more.ids@);
                assert forall|p: Pgid| #[trigger] before.contains(p) implies !more.ids@.contains(p) by {
                    let j = choose|j: int|
                        0 <= j < k && self@.pending[#[trigger] keys@[j]].pages.contains_key(p);
                    assert(keys@.contains(keys@[j]));
                    assert(self@.pending.contains_key(keys@[j]) && self@.pending.contains_key(t));
                    assert(self@.pending[t] == more@);
                }
                lemma_append(before, more.ids@);
                assert forall|p: Pgid| #[trigger] ids@.contains(p) <==> exists|j: int|
                    0 <= j < k + 1 && self@.pending[#[trigger] keys@[j]].pages.contains_key(p) by {
                    if more.ids@.contains(p) {
                        assert(self@.pending[keys@[k as int]].pages.contains_key(p));
                    }
                    if exists|j: int| 0 <= j < k + 1 && self@.pending[#[trigger] keys@[j]].pages.contains_key(p) {
                        let j = choose|j: int|
                            0 <= j < k + 1 && self@.pending[#[trigger] keys@[j]].pages.contains_key(p);
                        if j < k {
                            assert(before.contains(p));
                        } else {
                            assert(more.ids@.contains(p));
                        }
                    }
                }
            }
            k = k + 1;
        }
        proof {
            assert forall|p: Pgid| ids@.to_set().contains(p) <==> self@.pending_pages().contains(p) by {
                if self@.pending_pages().contains(p) {
                    let t = choose|t: Txid| #[trigger]
                        self@.pending.contains_key(t) && self@.pending[t].pages.contains_key(p);
                    assert(keys@.contains(t));
                    assert(self@.pending[keys@[keys@.index_of(t)]].pages.contains_key(p));
                }
                if ids@.contains(p) {
                    let j = choose|j: int|
                        0 <= j < k && self@.pending[#[trigger] keys@[j]].pages.contains_key(p);
                    assert(keys@.contains(keys@[j]));
                    assert(self@.pending.contains_key(keys@[j]));
                }
            }
            assert(ids@.to_set() =~= self@.pending_pages());
        }
        ids
    }

    /// The number of freed pages that may not be allocated yet.
    pub fn pending_count(&self) -> (n: usize)
        requires
            self.inv(),
        ensures
            n == self@.pending_pages().len(),
            self@.pending_pages().finite(),
    {
        let ids: Vec<Pgid> = self.pending_ids();
        proof {
            ids@.unique_seq_to_set();
        }
        ids.len()
    }

    /// The freed pages that may not be allocated yet, sorted.
    pub fn pending_page_ids_sorted(&self) -> (ids: Vec<Pgid>)
        requires
            self.inv(),
        ensures
            strictly_sorted(ids@),
            ids@.to_set() == self@.pending_pages(),
    {
        let pending: Vec<Pgid> = self.pending_ids();
        let ids: Vec<Pgid> = sort_pgids(pending.as_slice());
        proof {
            lemma_same_elements(ids@, pending@);
            lemma_sorted_distinct(ids@);
            assert(ids@.to_set() =~= pending@.to_set());
        }
        ids
    }

    /// The number of free and freed pages.
    pub fn count(&self) -> (n: usize)
        requires
            self.inv(),
            self@.all().len() <= usize::MAX,
        ensures
            n == self@.all().len(),
            self@.all().finite(),
    {
        let p: usize = self.pending_count();
        proof {
            self.lemma_split();
        }
        self.free_count() + p
    }

    proof fn lemma_split(&self)
        requires
            self.inv(),
        ensures
            self@.all().finite(),
            self@.all().len() == self@.free.len() + self@.pending_pages().len(),
    {
        assert(self@.free.disjoint(self@.pending_pages()));
        vstd::set_lib::lemma_set_disjoint_lens(self@.free, self@.pending_pages());
    }

    /// Whether a page is free or freed.
    pub fn freed(&self, pgid: Pgid) -> (b: bool)
        requires
            self.inv(),
        ensures
            b == self@.all().contains(pgid),
    {
        self.cache.contains(&pgid)
    }

    /// All free and freed pages, sorted.
    pub fn copy_all(&self) -> (ids: Vec<Pgid>)
        requires
            self.inv(),
        ensures
            strictly_sorted(ids@),
            ids@.to_set() == self@.all(),
    {
        let pending: Vec<Pgid> = self.pending_page_ids_sorted();
        let free: Vec<Pgid> = self.free_page_ids();
        let ids: Vec<Pgid> = merge_pgids(free.as_slice(), pending.as_slice());
        proof {
            assert forall|x: Pgid| free@.contains(x) implies !pending@.contains(x) by {
                assert(free@.to_set().contains(x));
                if pending@.contains(x) {
                    assert(pending@.to_set().contains(x));
                }
            }
            lemma_merge_strict(free@, pending@);
            lemma_merge_contains(free@, pending@);
            assert forall|x: Pgid| ids@.to_set().contains(x) <==> self@.all().contains(x) by {
                assert(free@.contains(x) <==> free@.to_set().contains(x));
                assert(pending@.contains(x) <==> pending@.to_set().contains(x));
            }
            assert(ids@.to_set() =~= self@.all());
        }
        ids
    }

    /// Makes the given pages the ones that may be allocated. The ids are sorted.
    pub fn init(&mut self, ids: Vec<Pgid>)
        requires
            old(self).inv(),
            strictly_sorted(ids@),
            forall|p: Pgid| #[trigger] ids@.contains(p) ==> valid_id(p) && !old(self)@.pending_pages().contains(p),
        ensures
            final(self).inv(),
            final(self)@ == (FreelistV { free: ids@.to_set(), ..old(self)@ }),
    {
        let ghost v0 = self@;
        self.pages.init(ids);
        proof {
            self.pages.lemma_ids();
        }
        assert(self@.pending =~= v0.pending);
        assert(self@.pending_pages() =~= v0.pending_pages());
        self.reindex();
    }

    /// Makes the index of all listed pages agree with the lists.
    fn reindex(&mut self)
        requires
            old(self)@.ok(),
            old(self).pages.inv(),
            forall|t: Txid| #[trigger] old(self).pending@.contains_key(t) ==> old(self).pending@[t].inv(),
        ensures
            final(self).inv(),
            final(self)@ == old(self)@,
    {
        let ghost v0 = self@;
        let free: Vec<Pgid> = self.pages.to_ids();
        let mut cache: HashSet<Pgid> = HashSet::new();
        cache_all(&mut cache, free.as_slice());
        let keys: Vec<Txid> = map_keys(&self.pending);
        let mut k: usize = 0;
        while k < keys.len()
            invariant
                k <= keys@.len(),
                self@ == v0,
                forall|t: Txid| #[trigger] keys@.contains(t) <==> self.pending@.contains_key(t),
                forall|p: Pgid| #[trigger] cache@.contains(p) <==> v0.free.contains(p) || exists|j: int|
                    0 <= j < k && v0.pending[#[trigger] keys@[j]].pages.contains_key(p),
            decreases keys@.len() - k,
        {
            let t: Txid = keys[k];
            assert(keys@.contains(keys@[k as int]));
            let ghost before = cache@;
            let more: &TxPending = self.pending.get(&t).unwrap();
            cache_all(&mut cache, more.ids.as_slice());
            assert forall|p: Pgid| #[trigger] cache@.contains(p) <==> v0.free.contains(p) || exists|j: int|
                0 <= j < k + 1 && v0.pending[#[trigger] keys@[j]].pages.contains_key(p) by {
                assert(v0.pending[t] == more@);
                if more.ids@.contains(p) {
                    assert(v0.pending[keys@[k as int]].pages.contains_key(p));
                }
                if exists|j: int| 0 <= j < k + 1 && v0.pending[#[trigger] keys@[j]].pages.contains_key(p) {
                    let j = choose|j: int|
                        0 <= j < k + 1 && v0.pending[#[trigger] keys@[j]].pages.contains_key(p);
                    if j < k {
                        assert(before.contains(p));
                    }
                }
            }
            k = k + 1;
        }
        self.cache = cache;
        proof {
            assert(self@.pending =~= v0.pending);
            assert forall|p: Pgid| self.cache@.contains(p) <==> self@.all().contains(p) by {
                if v0.pending_pages().contains(p) {
                    let t = choose|t: Txid| #[trigger]
                        v0.pending.contains_key(t) && v0.pending[t].pages.contains_key(p);
                    assert(keys@.contains(t));
                    assert(v0.pending[keys@[keys@.index_of(t)]].pages.contains_key(p));
                }
                if exists|j: int| 0 <= j < k && v0.pending[#[trigger] keys@[j]].pages.contains_key(p) {
                    let j = choose|j: int| 0 <= j < k && v0.pending[#[trigger] keys@[j]].pages.contains_key(p);
                    assert(keys@.contains(keys@[j]));
                    assert(v0.pending.contains_key(keys@[j]));
                }
            }
            assert(self.cache@ =~= self@.all());
        }
    }

    /// Takes a run of `n` pages for transaction `txid` and returns the id of the first one, or
    /// zero where there is no such run.
    pub fn allocate(&mut self, txid: Txid, n: usize) -> (pid: Pgid)
        requires
            old(self).inv(),
            old(self)@.kind == FreelistType::Array ==> !old(self)@.free.contains(1),
        ensures
            final(self).inv(),
            pid == 0 ==> final(self)@ == old(self)@ && (n == 0 || forall|s: int|
                !is_run(old(self)@.free, s, n as int)),
            pid != 0 ==> {
                &&& n > 0
                &&& taken(old(self)@.kind, old(self)@.free, pid, n as int)
                &&& final(self)@ == (FreelistV {
                    free: old(self)@.free.difference(id_range(pid as int, pid + n)),
                    allocs: old(self)@.allocs.insert(pid, txid),
                    ..old(self)@
                })
            },
    {
        let ghost v0 = self@;
        let pid: Pgid = self.pages.take(n as u64);
        if pid == 0 {
            assert(self@.pending =~= v0.pending);
            return 0;
        }
        self.allocs.insert(pid, txid);
        uncache_run(&mut self.cache, pid, n as u64);
        proof {
            self.pages.lemma_ids();
            assert(self@.pending =~= v0.pending);
            assert(self@.pending_pages() =~= v0.pending_pages());
            assert forall|p: Pgid| v0.pending_pages().contains(p) implies !v0.free.contains(p) by {
            }
            assert(self.cache@ =~= self@.all());
        }
        pid
    }

    /// Records that transaction `txid` no longer uses the page `pgid` and its overflow pages.
    pub fn free(&mut self, txid: Txid, pgid: Pgid, overflow: u32)
        requires
            old(self).inv(),
            pgid > 1,
            pgid + overflow < u64::MAX,
            forall|p: Pgid| pgid <= p <= pgid + overflow ==> !(#[trigger] old(self)@.all().contains(p)),
        ensures
            final(self).inv(),
            final(self)@ == old(self)@.free_v(txid, pgid, overflow),
            final(self)@.all() == old(self)@.all().union(id_range(pgid as int, pgid + overflow + 1)),
    {
        let ghost v0 = self@;
        let alloc: Txid = match self.allocs.remove(&pgid) {
            Some(t) => t,
            None => 0,
        };
        let mut txp: TxPending = match self.pending.remove(&txid) {
            Some(p) => p,
            None => TxPending::new(),
        };
        let ghost was = txp@;
        assert(was == v0.pending_of(txid));
        assert forall|p: Pgid| was.pages.contains_key(p) implies v0.all().contains(p) by {
            assert(v0.pending.contains_key(txid) && v0.pending[txid].pages.contains_key(p));
        }
        let end: Pgid = pgid + overflow as u64;
        let mut id: Pgid = pgid;
        let ghost rest = self.pending@;
        while id <= end
            invariant
                pgid <= id <= end + 1,
                end < u64::MAX,
                txp.inv(),
                txp@.last_begin == was.last_begin,
                forall|p: Pgid| #[trigger] txp@.pages.contains_key(p) <==> was.pages.contains_key(p) || pgid <= p < id,
                forall|p: Pgid| #[trigger] txp@.pages.contains_key(p) ==> txp@.pages[p] == (if pgid <= p < id {
                    alloc
                } else {
                    was.pages[p]
                }),
                self.cache@ == v0.all().union(id_range(pgid as int, id as int)),
                self.pending@ == rest,
                self.pages@ == v0.free,
                self.pages.spec_kind() == v0.kind,
                self.pages.inv(),
                self.readonly_txids@ == v0.readonly,
                self.allocs@ == v0.allocs.remove(pgid),
                forall|p: Pgid| pgid <= p <= end ==> !(#[trigger] v0.all().contains(p)),
                forall|p: Pgid| was.pages.contains_key(p) ==> v0.all().contains(p),
            decreases end + 1 - id,
        {
            assert(!v0.all().contains(id));
            txp.push(id, alloc);
            self.cache.insert(id);
            id = id + 1;
            assert(self.cache@ =~= v0.all().union(id_range(pgid as int, id as int)));
        }
        let ghost last = txp;
        self.pending.insert(txid, txp);
        proof {
            let w = v0.free_v(txid, pgid, overflow);
            assert(last@.pages =~= w.pending[txid].pages);
            assert(last@ == w.pending[txid]);
            assert(self@.pending =~= w.pending);
            v0.lemma_freed(txid, pgid, overflow);
            assert(self.cache@ =~= self@.all());
            assert forall|t: Txid| #[trigger] self.pending@.contains_key(t) implies self.pending@[t].inv() by {
            }
        }
    }

    /// Takes back what transaction `txid` freed, and forgets what it allocated. The pages that it
    /// allocated do not become free.
    pub fn rollback(&mut self, txid: Txid)
        requires
            old(self).inv(),
            forall|p: Pgid| #[trigger]
                old(self)@.pending_of(txid).pages.contains_key(p) ==> old(self)@.pending_of(txid).pages[p] == 0
                    || old(self)@.pending_of(txid).pages[p] != txid,
        ensures
            final(self).inv(),
            final(self)@ == old(self)@.rollback_v(txid),
            final(self)@.all() == old(self)@.all().difference(old(self)@.pending_of(txid).pages.dom()),
    {
        let ghost v0 = self@;
        let txp: TxPending = match self.pending.remove(&txid) {
            Some(p) => p,
            None => TxPending::new(),
        };
        let ghost pages = txp@.pages;
        assert(txp@ == v0.pending_of(txid));
        let ghost rest = self.pending@;
        let mut i: usize = 0;
        while i < txp.ids.len()
            invariant
                i <= txp.ids@.len(),
                txp.inv(),
                txp@.pages == pages,
                self.pending@ == rest,
                self.pages@ == v0.free,
                self.pages.spec_kind() == v0.kind,
                self.pages.inv(),
                self.readonly_txids@ == v0.readonly,
                self.cache@ == v0.all().difference(txp.ids@.take(i as int).to_set()),
                forall|p: Pgid| #[trigger] self.allocs@.contains_key(p) <==> v0.allocs.contains_key(p)
                    || txp.ids@.take(i as int).contains(p) && pages[p] != 0,
                forall|p: Pgid| #[trigger] self.allocs@.contains_key(p) ==> self.allocs@[p] == (
                if txp.ids@.take(i as int).contains(p) && pages[p] != 0 {
                    pages[p]
                } else {
                    v0.allocs[p]
                }),
            decreases txp.ids@.len() - i,
        {
            let pgid: Pgid = txp.ids[i];
            let tx: Txid = txp.alloc_tx[i];
            proof {
                txp.lemma_page(i as int);
                lemma_take_next(txp.ids@, i as int);
            }
            self.cache.remove(&pgid);
            if tx != 0 {
                self.allocs.insert(pgid, tx);
            }
            i = i + 1;
            assert(self.cache@ =~= v0.all().difference(txp.ids@.take(i as int).to_set()));
        }
        proof {
            assert(txp.ids@.take(i as int) =~= txp.ids@);
            assert forall|p: Pgid| #[trigger] txp.ids@.contains(p) <==> pages.contains_key(p) by {
            }
        }
        let ghost allocs1 = self.allocs@;
        forget_tx(&mut self.allocs, txid);
        proof {
            let w = v0.rollback_v(txid);
            assert(self@.allocs =~= w.allocs);
            assert(self@.pending =~= w.pending);
            v0.lemma_rolled_back(txid);
            assert(self.cache@ =~= self@.all());
        }
    }

    /// Records an open read transaction.
    pub fn add_readonly_txid(&mut self, tid: Txid)
        requires
            old(self).inv(),
        ensures
            final(self).inv(),
            final(self)@ == (FreelistV { readonly: old(self)@.readonly.push(tid), ..old(self)@ }),
    {
        let ghost v0 = self@;
        self.readonly_txids.push(tid);
        assert(self@.pending =~= v0.pending);
        assert(self@.pending_pages() =~= v0.pending_pages());
    }

    /// Records that a read transaction is closed.
    pub fn remove_readonly_txid(&mut self, tid: Txid)
        requires
            old(self).inv(),
        ensures
            final(self).inv(),
            final(self)@ == (FreelistV { readonly: final(self)@.readonly, ..old(self)@ }),
            final(self)@.readonly.to_multiset() == old(self)@.readonly.to_multiset().remove(tid),
    {
        let ghost v0 = self@;
        let mut i: usize = 0;
        while i < self.readonly_txids.len() && self.readonly_txids[i] != tid
            invariant
                i <= self.readonly_txids@.len(),
                forall|j: int| 0 <= j < i ==> self.readonly_txids@[j] != tid,
            decreases self.readonly_txids@.len() - i,
        {
            i = i + 1;
        }
        proof {
            broadcast use vstd::seq_lib::group_to_multiset_ensures;
        }
        if i < self.readonly_txids.len() {
            self.readonly_txids.swap_remove(i);
            proof {
                lemma_swap_remove(v0.readonly, i as int);
            }
        } else {
            assert(!v0.readonly.contains(tid));
            assert(v0.readonly.to_multiset().count(tid) == 0);
            assert(v0.readonly.to_multiset() =~= v0.readonly.to_multiset().remove(tid));
        }
        assert(self@.pending =~= v0.pending);
        assert(self@.pending_pages() =~= v0.pending_pages());
    }

    /// Lets all that transactions up to `txid` freed be allocated.
    pub fn release(&mut self, txid: Txid)
        requires
            old(self).inv(),
        ensures
            final(self).inv(),
            final(self)@ == old(self)@.release_v(txid),
            final(self)@.all() == old(self)@.all(),
    {
        let ghost v0 = self@;
        let ghost p0 = self.pending@;
        let mut m: Vec<Pgid> = Vec::new();
        let keys: Vec<Txid> = map_keys(&self.pending);
        let mut k: usize = 0;
        while k < keys.len()
            invariant
                k <= keys@.len(),
                v0.ok(),
                keys@.no_duplicates(),
                forall|t: Txid| #[trigger] keys@.contains(t) <==> v0.pending.contains_key(t),
                forall|t: Txid| #[trigger] v0.pending.contains_key(t) <==> p0.contains_key(t),
                forall|t: Txid| #[trigger] p0.contains_key(t) ==> p0[t].inv() && v0.pending[t] == p0[t]@,
                forall|t: Txid| #[trigger] self.pending@.contains_key(t) <==> p0.contains_key(t) && !(t <= txid
                    && keys@.take(k as int).contains(t)),
                forall|t: Txid| #[trigger] self.pending@.contains_key(t) ==> self.pending@[t] == p0[t],
                self.pages@ == v0.free,
                self.pages.spec_kind() == v0.kind,
                self.pages.inv(),
                self.readonly_txids@ == v0.readonly,
                self.cache@ == v0.all(),
                self.allocs@ == v0.allocs,
                m@.no_duplicates(),
                forall|p: Pgid| #[trigger] m@.contains(p) <==> exists|j: int|
                    0 <= j < k && keys@[j] <= txid && v0.pending[#[trigger] keys@[j]].pages.contains_key(p),
            decreases keys@.len() - k,
        {
            let t: Txid = keys[k];
            assert(keys@.contains(keys@[k as int]));
            let ghost before = m@;
            proof {
                lemma_take_next(keys@, k as int);
                if keys@.take(k as int).contains(t) {
                    let j = keys@.take(k as int).index_of(t);
                    assert(keys@[j] == keys@[k as int]);
                }
            }
            if t <= txid {
                let txp: TxPending = self.pending.remove(&t).unwrap();
                m.extend_from_slice(txp.ids.as_slice());
                proof {
                    assert(m@ =~= before + txp.ids@);
                    assert forall|p: Pgid| #[trigger] before.contains(p) implies !txp.ids@.contains(p) by {
                        let j = choose|j: int|
                            0 <= j < k && keys@[j] <= txid && v0.pending[#[trigger] keys@[j]].pages.contains_key(p);
                        assert(keys@.contains(keys@[j]));
                        assert(v0.pending.contains_key(keys@[j]) && v0.pending.contains_key(t));
                        assert(v0.pending[t] == txp@);
                        assert(keys@[j] != keys@[k as int]);
                    }
                    lemma_append(before, txp.ids@);
                }
                assert forall|p: Pgid| #[trigger] m@.contains(p) <==> exists|j: int|
                    0 <= j < k + 1 && keys@[j] <= txid && v0.pending[#[trigger] keys@[j]].pages.contains_key(p) by {
                    if txp.ids@.contains(p) {
                        assert(v0.pending[keys@[k as int]].pages.contains_key(p));
                    }
                    if exists|j: int|
                        0 <= j < k + 1 && keys@[j] <= txid && v0.pending[#[trigger] keys@[j]].pages.contains_key(p) {
                        let j = choose|j: int|
                            0 <= j < k + 1 && keys@[j] <= txid && v0.pending[#[trigger] keys@[j]].pages.contains_key(p);
                        if j < k {
                            assert(before.contains(p));
                        } else {
                            assert(txp.ids@.contains(p));
                        }
                    }
                }
            }
            k = k + 1;
        }
        proof {
            assert(keys@.take(k as int) =~= keys@);
            let w = v0.release_v(txid);
            assert(self@.pending =~= w.pending);
            let left = FreelistV { pending: w.pending, ..v0 };
            assert forall|p: Pgid| #[trigger] m@.contains(p) <==> v0.pending_pages().contains(p)
                && !left.pending_pages().contains(p) by {
                if m@.contains(p) {
                    let j = choose|j: int|
                        0 <= j < k && keys@[j] <= txid && v0.pending[#[trigger] keys@[j]].pages.contains_key(p);
                    assert(keys@.contains(keys@[j]));
                    assert(v0.pending.contains_key(keys@[j]));
                    if left.pending_pages().contains(p) {
                        let u = choose|u: Txid| #[trigger]
                            left.pending.contains_key(u) && left.pending[u].pages.contains_key(p);
                        assert(v0.pending.contains_key(u) && v0.pending[u].pages.contains_key(p));
                    }
                }
                if v0.pending_pages().contains(p) && !left.pending_pages().contains(p) {
                    let u = choose|u: Txid| #[trigger]
                        v0.pending.contains_key(u) && v0.pending[u].pages.contains_key(p);
                    if u > txid {
                        assert(left.pending.contains_key(u) && left.pending[u].pages.contains_key(p));
                    }
                    assert(keys@.contains(u));
                    assert(v0.pending[keys@[keys@.index_of(u)]].pages.contains_key(p));
                }
            }
            v0.lemma_release(txid);
            v0.lemma_only_moved(w);
        }
        self.settle(m, Ghost(v0), Ghost(v0.release_v(txid)));
    }

    /// Ends a release: the pages `m` leave the pending ones for the free ones.
    fn settle(&mut self, m: Vec<Pgid>, v0: Ghost<FreelistV>, w: Ghost<FreelistV>)
        requires
            v0@.ok(),
            v0@.only_moved(w@),
            w@ == v0@.moved_to(w@.pending),
            old(self)@ == (FreelistV { pending: w@.pending, ..v0@ }),
            old(self).pages.inv(),
            old(self).cache@ == v0@.all(),
            forall|t: Txid| #[trigger] old(self).pending@.contains_key(t) ==> old(self).pending@[t].inv(),
            m@.no_duplicates(),
            forall|p: Pgid| #[trigger]
                m@.contains(p) <==> v0@.pending_pages().contains(p) && !old(self)@.pending_pages().contains(p),
        ensures
            final(self).inv(),
            final(self)@ == w@,
            w@.all() == v0@.all(),
    {
        let ghost left = self@;
        proof {
            v0@.lemma_only_moved(w@);
            assert forall|p: Pgid| #[trigger] m@.contains(p) implies valid_id(p) && !self.pages@.contains(p) by {
                let t = choose|t: Txid| #[trigger]
                    v0@.pending.contains_key(t) && v0@.pending[t].pages.contains_key(p);
                assert(v0@.pending.contains_key(t) && v0@.pending[t].pages.contains_key(p));
            }
        }
        let ghost more = m@;
        self.pages.merge_spans(m);
        proof {
            assert forall|p: Pgid| self@.free.contains(p) <==> w@.free.contains(p) by {
                assert(more.contains(p) <==> more.to_set().contains(p));
            }
            assert(self@.free =~= w@.free);
            assert(self@.pending =~= w@.pending);
        }
    }

    /// Lets the pages that transactions from `begin` to `end` both allocated and freed be
    /// allocated.
    pub fn release_range(&mut self, begin: Txid, end: Txid)
        requires
            old(self).inv(),
        ensures
            final(self).inv(),
            final(self)@ == old(self)@.range_v(begin, end),
            final(self)@.all() == old(self)@.all(),
    {
        if begin > end {
            return;
        }
        let ghost v0 = self@;
        let ghost p0 = self.pending@;
        let ghost w = v0.range_v(begin, end);
        let mut m: Vec<Pgid> = Vec::new();
        let keys: Vec<Txid> = map_keys(&self.pending);
        let mut k: usize = 0;
        proof {
            assert(keys@.take(0).len() == 0);
        }
        while k < keys.len()
            invariant
                k <= keys@.len(),
                begin <= end,
                v0.ok(),
                w == v0.range_v(begin, end),
                keys@.no_duplicates(),
                forall|t: Txid| #[trigger] keys@.contains(t) <==> v0.pending.contains_key(t),
                forall|t: Txid| #[trigger] v0.pending.contains_key(t) <==> p0.contains_key(t),
                forall|t: Txid| #[trigger] p0.contains_key(t) ==> p0[t].inv() && v0.pending[t] == p0[t]@,
                forall|t: Txid| #[trigger] self.pending@.contains_key(t) <==> p0.contains_key(t) && (
                keys@.take(k as int).contains(t) ==> w.pending.contains_key(t)),
                forall|t: Txid| #[trigger]
                    self.pending@.contains_key(t) ==> self.pending@[t].inv() && self.pending@[t]@ == (
                    if keys@.take(k as int).contains(t) {
                        w.pending[t]
                    } else {
                        v0.pending[t]
                    }),
                self.pages@ == v0.free,
                self.pages.spec_kind() == v0.kind,
                self.pages.inv(),
                self.readonly_txids@ == v0.readonly,
                self.cache@ == v0.all(),
                self.allocs@ == v0.allocs,
                m@.no_duplicates(),
                forall|p: Pgid| #[trigger] m@.contains(p) <==> exists|j: int|
                    0 <= j < k && v0.released_in(#[trigger] keys@[j], begin, end, p),
            decreases keys@.len() - k,
        {
            let t: Txid = keys[k];
            assert(keys@.contains(keys@[k as int]));
            let ghost before = m@;
            proof {
                lemma_take_next(keys@, k as int);
                if keys@.take(k as int).contains(t) {
                    let j = keys@.take(k as int).index_of(t);
                    assert(keys@[j] == keys@[k as int]);
                }
            }
            let ghost mut part = Seq::<Pgid>::empty();
            if begin <= t && t <= end {
                let mut txp: TxPending = self.pending.remove(&t).unwrap();
                if txp.last_release_begin == begin {
                    self.pending.insert(t, txp);
                } else {
                    let out: Vec<Pgid> = txp.extract(begin, end);
                    proof {
                        part = out@;
                        assert forall|p: Pgid| #[trigger] before.contains(p) implies !part.contains(p) by {
                            let j = choose|j: int|
                                0 <= j < k && v0.released_in(#[trigger] keys@[j], begin, end, p);
                            assert(keys@.contains(keys@[j]));
                            assert(v0.pending.contains_key(keys@[j]) && v0.pending.contains_key(t));
                            assert(keys@[j] != keys@[k as int]);
                            assert(v0.pending[keys@[j]].pages.contains_key(p));
                        }
                        lemma_append(before, part);
                    }
                    m.extend_from_slice(out.as_slice());
                    assert(m@ =~= before + part);
                    assert(txp@ == v0.pending[t].without(begin, end));
                    if txp.ids.len() > 0 {
                        proof {
                            txp.lemma_page(0);
                            assert(txp@.pages.dom().contains(txp.ids@[0]));
                        }
                        self.pending.insert(t, txp);
                    } else {
                        assert(txp@.pages.dom() =~= Set::<Pgid>::empty());
                    }
                }
            }
            assert forall|p: Pgid| #[trigger] part.contains(p) <==> v0.released_in(t, begin, end, p) by {
            }
            assert forall|p: Pgid| #[trigger] m@.contains(p) <==> exists|j: int|
                0 <= j < k + 1 && v0.released_in(#[trigger] keys@[j], begin, end, p) by {
                assert(m@.contains(p) <==> before.contains(p) || part.contains(p));
                if part.contains(p) {
                    assert(v0.released_in(keys@[k as int], begin, end, p));
                }
                if exists|j: int| 0 <= j < k + 1 && v0.released_in(#[trigger] keys@[j], begin, end, p) {
                    let j = choose|j: int| 0 <= j < k + 1 && v0.released_in(#[trigger] keys@[j], begin, end, p);
                    if j < k {
                        assert(before.contains(p));
                    }
                }
            }
            k = k + 1;
        }
        proof {
            assert(keys@.take(k as int) =~= keys@);
            assert(self@.pending =~= w.pending);
            let left = FreelistV { pending: w.pending, ..v0 };
            assert forall|p: Pgid| #[trigger] m@.contains(p) <==> v0.pending_pages().contains(p)
                && !left.pending_pages().contains(p) by {
                if m@.contains(p) {
                    let j = choose|j: int| 0 <= j < k && v0.released_in(#[trigger] keys@[j], begin, end, p);
                    assert(keys@.contains(keys@[j]));
                    assert(v0.pending.contains_key(keys@[j]) && v0.pending[keys@[j]].pages.contains_key(p));
                    if left.pending_pages().contains(p) {
                        let u = choose|u: Txid| #[trigger]
                            left.pending.contains_key(u) && left.pending[u].pages.contains_key(p);
                        assert(v0.pending.contains_key(u) && v0.pending[u].pages.contains_key(p));
                        assert(u == keys@[j]);
                    }
                }
                if v0.pending_pages().contains(p) && !left.pending_pages().contains(p) {
                    let u = choose|u: Txid| #[trigger]
                        v0.pending.contains_key(u) && v0.pending[u].pages.contains_key(p);
                    if !v0.released_in(u, begin, end, p) {
                        assert(left.pending.contains_key(u)) by {
                            if v0.in_pass(u, begin, end) {
                                assert(v0.pending[u].without(begin, end).pages.dom().contains(p));
                            }
                        }
                        assert(left.pending.contains_key(u) && left.pending[u].pages.contains_key(p));
                    }
                    assert(keys@.contains(u));
                    assert(v0.released_in(keys@[keys@.index_of(u)], begin, end, p));
                }
            }
            v0.lemma_range(begin, end);
        }
        self.settle(m, Ghost(v0), Ghost(w));
    }

    /// Lets every freed page that no open reader needs be allocated. The open readers come out
    /// sorted.
    pub fn release_pending_pages(&mut self)
        requires
            old(self).inv(),
        ensures
            final(self).inv(),
            sorted(final(self)@.readonly),
            final(self)@.readonly.to_multiset() == old(self)@.readonly.to_multiset(),
            final(self)@ == (FreelistV {
                readonly: final(self)@.readonly,
                ..old(self)@
            }).release_pending_v(),
            final(self)@.all() == old(self)@.all(),
    {
        let ghost v0 = self@;
        let readers: Vec<Txid> = sort_pgids(self.readonly_txids.as_slice());
        let copy: Vec<Txid> = readers.clone();
        assert(copy@ =~= readers@);
        self.readonly_txids = copy;
        let ghost v1 = FreelistV { readonly: readers@, ..v0 };
        assert(self@.pending =~= v0.pending);
        assert(self@ == v1);
        assert(v1.pending_pages() =~= v0.pending_pages());
        assert(self.inv());
        let mut minid: Txid = u64::MAX;
        if readers.len() > 0 {
            minid = readers[0];
        }
        let ghost first = minid;
        if minid > 0 {
            self.release(minid - 1);
        }
        let ghost below = self@;
        let mut i: usize = 0;
        while i < readers.len()
            invariant
                i <= readers@.len(),
                self.inv(),
                self@.readonly == readers@,
                self@.all() == v0.all(),
                self@.ranges_v(i as int, minid) == below.ranges_v(0, first),
            decreases readers@.len() - i,
        {
            let tid: Txid = readers[i];
            let end: Txid = if tid > 0 { tid - 1 } else { 0 };
            let ghost before = self@;
            self.release_range(minid, end);
            proof {
                before.lemma_range(minid, end);
            }
            minid = if tid < u64::MAX { tid + 1 } else { u64::MAX };
            i = i + 1;
        }
        self.release_range(minid, u64::MAX);
    }

    /// Makes the pages on a freelist page the ones that may be allocated.
    pub fn read_page(&mut self, page: &[u8])
        requires
            old(self).inv(),
            freelist_ok(page@),
            freelist_seq(page@).no_duplicates(),
            forall|p: Pgid| #[trigger]
                freelist_seq(page@).contains(p) ==> valid_id(p) && !old(self)@.pending_pages().contains(p),
        ensures
            final(self).inv(),
            final(self)@ == (FreelistV { free: freelist_seq(page@).to_set(), ..old(self)@ }),
    {
        let ids: Vec<Pgid> = freelist_ids(page);
        let listed: Vec<Pgid> = sort_pgids(ids.as_slice());
        proof {
            lemma_same_elements(listed@, ids@);
            lemma_sorted_distinct(listed@);
            assert(listed@.to_set() =~= ids@.to_set());
        }
        self.init(listed);
    }

    /// Makes the given pages the ones that may be allocated, but for those that are freed and not
    /// released yet. The ids are sorted.
    pub fn no_sync_reload(&mut self, pgids: Vec<Pgid>)
        requires
            old(self).inv(),
            strictly_sorted(pgids@),
            forall|p: Pgid| #[trigger] pgids@.contains(p) ==> valid_id(p),
        ensures
            final(self).inv(),
            final(self)@ == (FreelistV {
                free: pgids@.to_set().difference(old(self)@.pending_pages()),
                ..old(self)@
            }),
    {
        let pending: Vec<Pgid> = self.pending_ids();
        let mut pcache: HashSet<Pgid> = HashSet::new();
        cache_all(&mut pcache, pending.as_slice());
        let ghost gone = self@.pending_pages();
        assert(pcache@ =~= gone);
        let mut a: Vec<Pgid> = Vec::new();
        let mut i: usize = 0;
        while i < pgids.len()
            invariant
                i <= pgids@.len(),
                pcache@ == gone,
                strictly_sorted(pgids@),
                strictly_sorted(a@),
                a@.len() > 0 ==> i > 0 && a@.last() <= pgids@[i - 1],
                forall|p: Pgid| #[trigger] a@.contains(p) <==> pgids@.take(i as int).contains(p) && !gone.contains(p),
            decreases pgids@.len() - i,
        {
            let id: Pgid = pgids[i];
            let ghost a0 = a@;
            proof {
                lemma_take_next(pgids@, i as int);
                assert(i > 0 ==> pgids@[i - 1] < pgids@[i as int]);
            }
            if !pcache.contains(&id) {
                a.push(id);
                proof {
                    assert forall|x: int, y: int| 0 <= x < y < a@.len() implies a@[x] < a@[y] by {
                        if y == a0.len() {
                            assert(a0[x] <= a0.last());
                        }
                    }
                    assert(a@[a0.len() as int] == id);
                    assert forall|p: Pgid| #[trigger] a@.contains(p) <==> a0.contains(p) || p == id by {
                        if a0.contains(p) {
                            assert(a@[a0.index_of(p)] == p);
                        }
                        if a@.contains(p) && p != id {
                            assert(a0[a@.index_of(p)] == p);
                        }
                    }
                }
            }
            i = i + 1;
        }
        proof {
            assert(pgids@.take(i as int) =~= pgids@);
            assert(a@.to_set() =~= pgids@.to_set().difference(gone));
        }
        self.init(a);
    }

    /// Makes the pages on a freelist page the ones that may be allocated, but for those that are
    /// freed and not released yet.
    pub fn reload(&mut self, page: &[u8])
        requires
            old(self).inv(),
            freelist_ok(page@),
            freelist_seq(page@).no_duplicates(),
            forall|p: Pgid| #[trigger] freelist_seq(page@).contains(p) ==> valid_id(p),
        ensures
            final(self).inv(),
            final(self)@ == (FreelistV {
                free: freelist_seq(page@).to_set().difference(old(self)@.pending_pages()),
                ..old(self)@
            }),
    {
        let ids: Vec<Pgid> = freelist_ids(page);
        let listed: Vec<Pgid> = sort_pgids(ids.as_slice());
        proof {
            lemma_same_elements(listed@, ids@);
            lemma_sorted_distinct(listed@);
            assert(listed@.to_set() =~= ids@.to_set());
        }
        self.no_sync_reload(listed);
    }

    /// Writes all free and freed pages to a freelist page, sorted.
    pub fn write_page(&self, page: &mut [u8])
        requires
            self.inv(),
            freelist_size(self@.all().len() as int) <= old(page)@.len(),
        ensures
            written_list(self@, old(page)@, final(page)@),
    {
        let ids: Vec<Pgid> = self.copy_all();
        proof {
            lemma_strict_len(ids@);
        }
        write_freelist(page, ids.as_slice());
    }

    /// The number of bytes that `write_page` needs.
    pub fn estimated_write_page_size(&self) -> (n: usize)
        requires
            self.inv(),
            freelist_size(self@.all().len() as int) <= usize::MAX,
        ensures
            n == freelist_size(self@.all().len() as int),
    {
        estimated_freelist_page_size(self.count())
    }

    /// The number of pages that hold what `write_page` writes.
    pub fn pages_for_write(&self, page_size: usize) -> (n: usize)
        requires
            self.inv(),
            page_size > 0,
            freelist_size(self@.all().len() as int) < usize::MAX,
        ensures
            n == freelist_size(self@.all().len() as int) / page_size as int + 1,
            n >= 1,
            (n - 1) * page_size <= freelist_size(self@.all().len() as int) < n * page_size,
    {
        let size: usize = self.estimated_write_page_size();
        assert(size / page_size <= size && (size / page_size) * page_size <= size && size < (size / page_size + 1)
            * page_size) by (nonlinear_arith)
            requires
                page_size > 0,
                size >= 0,
        ;
        size / page_size + 1
    }

    /// Lets the pages that are listed as freed by nobody, and are not free, be allocated.
    pub fn merge_spans(&mut self, ids: Vec<Pgid>)
        requires
            old(self).inv(),
            ids@.no_duplicates(),
            forall|p: Pgid| #[trigger] ids@.contains(p) ==> valid_id(p) && !old(self)@.all().contains(p),
        ensures
            final(self).inv(),
            final(self)@ == (FreelistV { free: old(self)@.free.union(ids@.to_set()), ..old(self)@ }),
    {
        let ghost v0 = self@;
        cache_all(&mut self.cache, ids.as_slice());
        let ghost more = ids@;
        self.pages.merge_spans(ids);
        proof {
            self.pages.lemma_ids();
            assert(self@.pending =~= v0.pending);
            assert(self@.pending_pages() =~= v0.pending_pages());
            assert forall|p: Pgid| self.cache@.contains(p) <==> self@.all().contains(p) by {
                assert(more.contains(p) <==> more.to_set().contains(p));
            }
            assert(self.cache@ =~= self@.all());
        }
    }
}

impl FreelistV {
    /// Freeing pages keeps the list sound.
    proof fn lemma_freed(self, txid: Txid, pgid: Pgid, overflow: u32)
        requires
            self.ok(),
            pgid > 1,
            pgid + overflow < u64::MAX,
            forall|p: Pgid| pgid <= p <= pgid + overflow ==> !(#[trigger] self.all().contains(p)),
        ensures
            self.free_v(txid, pgid, overflow).ok(),
            self.free_v(txid, pgid, overflow).all() == self.all().union(id_range(pgid as int, pgid + overflow + 1)),
    {
        let w = self.free_v(txid, pgid, overflow);
        let range = id_range(pgid as int, pgid + overflow + 1);
        assert forall|p: Pgid| w.pending_pages().contains(p) <==> self.pending_pages().union(range).contains(p) by {
            if w.pending_pages().contains(p) {
                let t = choose|t: Txid| #[trigger] w.pending.contains_key(t) && w.pending[t].pages.contains_key(p);
                if t != txid || !range.contains(p) {
                    assert(self.pending.contains_key(t) && self.pending[t].pages.contains_key(p));
                }
            }
            if self.pending_pages().contains(p) {
                let t = choose|t: Txid| #[trigger]
                    self.pending.contains_key(t) && self.pending[t].pages.contains_key(p);
                assert(w.pending.contains_key(t) && w.pending[t].pages.contains_key(p));
            }
            if range.contains(p) {
                assert(w.pending.contains_key(txid) && w.pending[txid].pages.contains_key(p));
            }
        }
        assert(w.pending_pages() =~= self.pending_pages().union(range));
        assert(w.all() =~= self.all().union(range));
        assert forall|p: Pgid| pgid <= p < pgid + (overflow + 1) implies !self.pending_pages().contains(p) by {
            assert(!self.all().contains(p));
        }
        lemma_add_range(self.pending_pages(), pgid as int, overflow + 1);
        assert forall|t: Txid, p: Pgid|
            #[trigger] w.pending.contains_key(t) && #[trigger] w.pending[t].pages.contains_key(p) implies 1 < p
            < u64::MAX && !w.free.contains(p) by {
            if range.contains(p) {
                assert(!self.all().contains(p));
            } else {
                assert(self.pending.contains_key(t) && self.pending[t].pages.contains_key(p));
            }
        }
        assert forall|t: Txid, u: Txid, p: Pgid|
            #[trigger] w.pending.contains_key(t) && #[trigger] w.pending.contains_key(u)
                && #[trigger] w.pending[t].pages.contains_key(p) && t != u
                implies !w.pending[u].pages.contains_key(p) by {
            if range.contains(p) {
                assert(!self.all().contains(p));
                if t == txid && self.pending.contains_key(u) && self.pending[u].pages.contains_key(p) {
                    assert(self.pending_pages().contains(p));
                }
                if t != txid {
                    assert(self.pending.contains_key(t) && self.pending[t].pages.contains_key(p));
                    assert(self.pending_pages().contains(p));
                }
            } else {
                assert(self.pending.contains_key(t) && self.pending[t].pages.contains_key(p));
                if w.pending[u].pages.contains_key(p) {
                    assert(self.pending.contains_key(u) && self.pending[u].pages.contains_key(p));
                }
            }
        }
    }

    /// Rolling back keeps the list sound.
    proof fn lemma_rolled_back(self, txid: Txid)
        requires
            self.ok(),
        ensures
            self.rollback_v(txid).ok(),
            self.rollback_v(txid).all() == self.all().difference(self.pending_of(txid).pages.dom()),
    {
        let w = self.rollback_v(txid);
        let pages = self.pending_of(txid).pages;
        assert forall|p: Pgid| w.pending_pages().contains(p) <==> self.pending_pages().difference(
            pages.dom(),
        ).contains(p) by {
            if w.pending_pages().contains(p) {
                let t = choose|t: Txid| #[trigger] w.pending.contains_key(t) && w.pending[t].pages.contains_key(p);
                assert(self.pending.contains_key(t) && self.pending[t].pages.contains_key(p));
            }
            if self.pending_pages().contains(p) && !pages.contains_key(p) {
                let t = choose|t: Txid| #[trigger]
                    self.pending.contains_key(t) && self.pending[t].pages.contains_key(p);
                assert(w.pending.contains_key(t) && w.pending[t].pages.contains_key(p));
            }
        }
        assert(w.pending_pages() =~= self.pending_pages().difference(pages.dom()));
        assert forall|p: Pgid| #[trigger] w.free.contains(p) implies !pages.contains_key(p) by {
        }
        assert(w.all() =~= self.all().difference(pages.dom()));
    }
}

/// A strictly sorted list has as many elements as it has different ones.
proof fn lemma_strict_len(ids: Seq<Pgid>)
    requires
        strictly_sorted(ids),
    ensures
        ids.no_duplicates(),
        ids.len() == ids.to_set().len(),
{
    ids.unique_seq_to_set();
}

/// `page` is the page `before` after the pages of `list` were written to it as a freelist page.
pub open spec fn written_list(list: FreelistV, before: Seq<u8>, page: Seq<u8>) -> bool {
    &&& strictly_sorted(freelist_seq(page))
    &&& freelist_seq(page).to_set() == list.all()
    &&& freelist_written(before, page, freelist_seq(page))
}

/// A freelist page that was written can be read by an empty list, which then holds as free every
/// page that was free or freed.
pub proof fn lemma_write_read(list: FreelistV, before: Seq<u8>, page: Seq<u8>, other: FreelistV)
    requires
        list.ok(),
        written_list(list, before, page),
        other.pending == Map::<Txid, PendingV>::empty(),
    ensures
        freelist_ok(page),
        freelist_seq(page).no_duplicates(),
        forall|p: Pgid| #[trigger]
            freelist_seq(page).contains(p) ==> valid_id(p) && !other.pending_pages().contains(p),
        (FreelistV { free: freelist_seq(page).to_set(), ..other }).all() == list.all(),
        (FreelistV { free: freelist_seq(page).to_set(), ..other }).free == list.all(),
{
    assert forall|p: Pgid| #[trigger] freelist_seq(page).contains(p) implies valid_id(p)
        && !other.pending_pages().contains(p) by {
        assert(freelist_seq(page).to_set().contains(p));
        if list.pending_pages().contains(p) {
            let t = choose|t: Txid| #[trigger] list.pending.contains_key(t) && list.pending[t].pages.contains_key(p);
            assert(list.pending.contains_key(t) && list.pending[t].pages.contains_key(p));
        }
    }
    let after = FreelistV { free: freelist_seq(page).to_set(), ..other };
    assert(after.pending_pages() =~= Set::<Pgid>::empty());
    assert(after.all() =~= list.all());
}

/// A page that a transaction frees is freed with all its overflow pages, and no other page is. None of
/// them may be allocated yet, and each is recorded as freed by this transaction and with the transaction
/// that had allocated it.
pub proof fn lemma_freed_pages(list: FreelistV, txid: Txid, pgid: Pgid, overflow: u32, p: Pgid, t: Txid)
    ensures
        ({
            let after = list.free_v(txid, pgid, overflow);
            let freed = pgid <= p <= pgid + overflow;
            &&& after.free == list.free
            &&& after.pending_pages().contains(p) <==> list.pending_pages().contains(p) || freed
            &&& freed ==> after.pending.contains_key(txid) && after.pending[txid].pages.contains_key(p)
            &&& freed && list.allocs.contains_key(pgid) ==> after.pending[txid].pages[p] == list.allocs[pgid]
            &&& freed && !list.allocs.contains_key(pgid) ==> after.pending[txid].pages[p] == 0
            &&& t != txid ==> after.pending.contains_key(t) == list.pending.contains_key(t) && after.pending[t]
                == list.pending[t]
        }),
{
    let after = list.free_v(txid, pgid, overflow);
    if list.pending_pages().contains(p) {
        let u = choose|u: Txid| #[trigger] list.pending.contains_key(u) && list.pending[u].pages.contains_key(p);
        assert(after.pending.contains_key(u) && after.pending[u].pages.contains_key(p));
    }
    if pgid <= p <= pgid + overflow {
        assert(after.pending.contains_key(txid) && after.pending[txid].pages.contains_key(p));
    }
    if after.pending_pages().contains(p) && !(pgid <= p <= pgid + overflow) {
        let u = choose|u: Txid| #[trigger] after.pending.contains_key(u) && after.pending[u].pages.contains_key(p);
        assert(list.pending.contains_key(u) && list.pending[u].pages.contains_key(p));
    }
}

/// Releasing the transactions up to `txid` makes the pages that they freed free, and leaves those that
/// later ones freed as they are.
pub proof fn lemma_released_all(list: FreelistV, txid: Txid, t: Txid, p: Pgid)
    requires
        list.ok(),
        list.pending.contains_key(t),
        list.pending[t].pages.contains_key(p),
    ensures
        t <= txid ==> list.release_v(txid).free.contains(p) && !list.release_v(txid).pending_pages().contains(p),
        t > txid ==> !list.release_v(txid).free.contains(p) && list.release_v(txid).pending.contains_key(t)
            && list.release_v(txid).pending[t] == list.pending[t],
        list.release_v(txid).all() == list.all(),
{
    let after = list.release_v(txid);
    let left = FreelistV { pending: after.pending, ..list };
    list.lemma_release(txid);
    list.lemma_only_moved(after);
    assert(after.pending_pages() =~= left.pending_pages());
    assert(list.pending_pages().contains(p));
    if t <= txid {
        if left.pending_pages().contains(p) {
            let u = choose|u: Txid| #[trigger] left.pending.contains_key(u) && left.pending[u].pages.contains_key(p);
            assert(list.pending.contains_key(u) && list.pending[u].pages.contains_key(p));
        }
    } else {
        assert(left.pending.contains_key(t) && left.pending[t].pages.contains_key(p));
        assert(left.pending_pages().contains(p));
    }
}

/// A pass over a range of transactions makes a page free just if it was both allocated and freed by
/// transactions of the range, unless a pass that began there has come to that transaction's pages before.
pub proof fn lemma_range_exact(list: FreelistV, begin: Txid, end: Txid, t: Txid, p: Pgid)
    requires
        list.ok(),
        list.pending.contains_key(t),
        list.pending[t].pages.contains_key(p),
    ensures
        ({
            let after = list.range_v(begin, end);
            let alloc = list.pending[t].pages[p];
            &&& after.all() == list.all()
            &&& list.pending[t].last_begin != begin ==> (after.free.contains(p) <==> begin <= t <= end && begin <= alloc
                <= end)
            &&& list.pending[t].last_begin == begin ==> !after.free.contains(p)
            &&& !after.free.contains(p) ==> after.pending.contains_key(t) && after.pending[t].pages.contains_key(p)
                && after.pending[t].pages[p] == alloc
        }),
{
    let after = list.range_v(begin, end);
    list.lemma_range(begin, end);
    list.lemma_only_moved(after);
    assert(list.pending_pages().contains(p));
    assert(!list.free.contains(p));
    if begin <= end {
        let left = FreelistV { pending: after.pending, ..list };
        assert(after.pending_pages() =~= left.pending_pages());
        if list.released_in(t, begin, end, p) {
            if left.pending_pages().contains(p) {
                let u = choose|u: Txid| #[trigger] left.pending.contains_key(u) && left.pending[u].pages.contains_key(p);
                assert(list.pending.contains_key(u) && list.pending[u].pages.contains_key(p));
            }
        } else {
            if list.in_pass(t, begin, end) {
                assert(list.pending[t].without(begin, end).pages.dom().contains(p));
            }
            assert(left.pending.contains_key(t) && left.pending[t].pages.contains_key(p));
            assert(left.pending_pages().contains(p));
        }
    }
}

/// Of the pages that an allocation takes every one was free. An array gives the lowest pages that lie
/// side by side; spans give pages at the start of a span, and of a longer one only where no span has just
/// as many pages.
pub proof fn lemma_taken_free(kind: FreelistType, free: Set<Pgid>, pid: Pgid, n: int, i: int, start: int)
    requires
        taken(kind, free, pid, n),
        n > 0,
    ensures
        0 <= i < n ==> pid + i <= u64::MAX && free.contains((pid + i) as u64),
        kind is Array && 0 <= start < pid ==> exists|p: Pgid| start <= p < start + n && !#[trigger] free.contains(p),
        kind is HashMap && pid > 0 ==> !free.contains((pid - 1) as u64),
        kind is HashMap && free.contains((pid + n) as u64) && start > 0 && start + n <= u64::MAX && !free.contains(
            (start - 1) as u64,
        ) && !free.contains((start + n) as u64) ==> exists|p: Pgid| start <= p < start + n && !#[trigger] free.contains(p),
{
    if kind is HashMap && free.contains((pid + n) as u64) {
        assert(!is_whole_run(free, start, n));
    }
    if 0 <= i < n {
        assert(free.contains((pid + i) as u64));
    }
    if kind is Array && 0 <= start < pid {
        assert(!is_run(free, start, n));
    }
}

/// What a transaction freed is in use again once it is rolled back, with the transaction that had
/// allocated it where that was known, and what it allocated is recorded no longer. What others allocated
/// or freed is as it was.
pub proof fn lemma_rolled_back(list: FreelistV, txid: Txid, p: Pgid, t: Txid)
    requires
        list.ok(),
    ensures
        ({
            let after = list.rollback_v(txid);
            let mine = list.pending.contains_key(txid) && list.pending[txid].pages.contains_key(p);
            &&& after.free == list.free
            &&& mine ==> !after.all().contains(p)
            &&& !mine ==> (after.all().contains(p) <==> list.all().contains(p))
            &&& mine && list.pending[txid].pages[p] != 0 ==> after.allocs.contains_key(p) && after.allocs[p]
                == list.pending[txid].pages[p]
            &&& !mine && list.allocs.contains_key(p) && list.allocs[p] == txid ==> !after.allocs.contains_key(p)
            &&& !mine && list.allocs.contains_key(p) && list.allocs[p] != txid ==> after.allocs.contains_key(p)
                && after.allocs[p] == list.allocs[p]
            &&& !mine && !list.allocs.contains_key(p) ==> !after.allocs.contains_key(p)
            &&& !after.pending.contains_key(txid)
            &&& t != txid ==> after.pending.contains_key(t) == list.pending.contains_key(t)
            &&& t != txid && list.pending.contains_key(t) ==> after.pending[t] == list.pending[t]
        }),
{
    let after = list.rollback_v(txid);
    if after.pending_pages().contains(p) {
        let u = choose|u: Txid| #[trigger] after.pending.contains_key(u) && after.pending[u].pages.contains_key(p);
        assert(list.pending.contains_key(u) && list.pending[u].pages.contains_key(p));
    }
    if list.pending_pages().contains(p) {
        let u = choose|u: Txid| #[trigger] list.pending.contains_key(u) && list.pending[u].pages.contains_key(p);
        if u != txid {
            assert(after.pending.contains_key(u) && after.pending[u].pages.contains_key(p));
        }
    }
}

/// Rolling back a transaction that had freed nothing before undoes what it freed.
pub proof fn lemma_free_rollback(list: FreelistV, txid: Txid, pgid: Pgid, overflow: u32)
    requires
        list.ok(),
        !list.pending.contains_key(txid),
    ensures
        list.free_v(txid, pgid, overflow).rollback_v(txid).pending == list.pending,
        list.free_v(txid, pgid, overflow).rollback_v(txid).free == list.free,
        list.free_v(txid, pgid, overflow).rollback_v(txid).all() == list.all(),
{
    let back = list.free_v(txid, pgid, overflow).rollback_v(txid);
    assert(back.pending =~= list.pending);
    assert(back.pending_pages() =~= list.pending_pages());
}

/// No page becomes free that an open reader may still read: one that a transaction up to the
/// reader's allocated and a later one freed.
pub proof fn lemma_readers_keep_pages(list: FreelistV, p: Pgid, freed_by: Txid, reader: Txid)
    requires
        list.ok(),
        sorted(list.readonly),
        list.readonly.contains(reader),
        list.pending.contains_key(freed_by),
        list.pending[freed_by].pages.contains_key(p),
        list.pending[freed_by].pages[p] <= reader < freed_by,
    ensures
        !list.release_pending_v().free.contains(p),
        list.release_pending_v().pending.contains_key(freed_by),
        list.release_pending_v().pending[freed_by].pages.contains_key(p),
        list.release_pending_v().pending[freed_by].pages[p] == list.pending[freed_by].pages[p],
{
    let first: Txid = list.readonly[0];
    let k = list.readonly.index_of(reader);
    assert(list.readonly[0] <= list.readonly[k]);
    let below = if first > 0 { list.release_v((first - 1) as u64) } else { list };
    if first > 0 {
        list.lemma_release((first - 1) as u64);
        list.lemma_only_moved(below);
    }
    lemma_ranges_keep(below, 0, first, p, freed_by, reader);
}

/// Passes from reader `i` on, beginning right after the reader before it, keep what a reader may
/// still read.
proof fn lemma_ranges_keep(list: FreelistV, i: int, begin: Txid, p: Pgid, freed_by: Txid, reader: Txid)
    requires
        list.ok(),
        sorted(list.readonly),
        0 <= i <= list.readonly.len(),
        list.readonly.contains(reader),
        list.pending.contains_key(freed_by),
        list.pending[freed_by].pages.contains_key(p),
        list.pending[freed_by].pages[p] <= reader < freed_by,
        i == 0 ==> begin == list.readonly[0],
        i > 0 ==> begin == u64::MAX || begin == list.readonly[i - 1] + 1,
        i > 0 && begin == u64::MAX ==> list.readonly[i - 1] >= u64::MAX - 1,
    ensures
        list.ranges_v(i, begin).pending.contains_key(freed_by),
        list.ranges_v(i, begin).pending[freed_by].pages.contains_key(p),
        list.ranges_v(i, begin).pending[freed_by].pages[p] == list.pending[freed_by].pages[p],
        !list.ranges_v(i, begin).free.contains(p),
    decreases list.readonly.len() - i,
{
    let k = list.readonly.index_of(reader);
    let tid = list.readonly[i];
    let end: Txid = if i == list.readonly.len() {
        u64::MAX
    } else if tid > 0 {
        (tid - 1) as u64
    } else {
        0
    };
    let next: Txid = if tid < u64::MAX { (tid + 1) as u64 } else { u64::MAX };
    let later = list.range_v(begin, end);
    list.lemma_range(begin, end);
    list.lemma_only_moved(later);
    assert(!list.released_in(freed_by, begin, end, p)) by {
        if k < i {
            assert(list.readonly[k] <= list.readonly[i - 1]);
        } else {
            assert(list.readonly[i] <= list.readonly[k]);
        }
    }
    assert(later.pending.contains_key(freed_by) && later.pending[freed_by].pages.contains_key(p)) by {
        if list.in_pass(freed_by, begin, end) && begin <= end {
            assert(list.pending[freed_by].without(begin, end).pages.dom().contains(p));
        }
    }
    if i < list.readonly.len() {
        lemma_ranges_keep(later, i + 1, next, p, freed_by, reader);
    }
}

/// Without open readers everything that was freed becomes free, whatever transaction freed it
/// (the largest id is never that of a transaction).
pub proof fn lemma_no_readers(list: FreelistV)
    requires
        list.ok(),
        list.readonly.len() == 0,
        !list.pending.contains_key(u64::MAX),
    ensures
        list.release_pending_v().free == list.all(),
        list.release_pending_v().pending == Map::<Txid, PendingV>::empty(),
{
    let below = list.release_v((u64::MAX - 1) as u64);
    assert(below.pending =~= Map::<Txid, PendingV>::empty());
    list.lemma_release((u64::MAX - 1) as u64);
    list.lemma_only_moved(below);
    let after = below.range_v(u64::MAX, u64::MAX);
    assert(below.ranges_v(0, u64::MAX) == after);
    below.lemma_range(u64::MAX, u64::MAX);
    below.lemma_only_moved(after);
    assert(after.pending =~= Map::<Txid, PendingV>::empty());
    assert(after.pending_pages() =~= Set::<Pgid>::empty());
    assert(after.free =~= after.all());
}

/// Adds ids to a set.
fn cache_all(cache: &mut HashSet<Pgid>, ids: &[Pgid])
    ensures
        final(cache)@ == old(cache)@.union(ids@.to_set()),
{
    let ghost c0 = cache@;
    let mut i: usize = 0;
    while i < ids.len()
        invariant
            i <= ids@.len(),
            cache@ == c0.union(ids@.take(i as int).to_set()),
        decreases ids@.len() - i,
    {
        proof {
            lemma_take_next(ids@, i as int);
        }
        cache.insert(ids[i]);
        i = i + 1;
        assert(cache@ =~= c0.union(ids@.take(i as int).to_set()));
    }
    assert(ids@.take(i as int) =~= ids@);
}

/// One more element of a list is in the next longer part of it.
proof fn lemma_take_next(ids: Seq<Pgid>, i: int)
    requires
        0 <= i < ids.len(),
    ensures
        forall|p: Pgid| #[trigger] ids.take(i + 1).contains(p) <==> ids.take(i).contains(p) || p == ids[i],
{
    let a = ids.take(i);
    let b = ids.take(i + 1);
    assert forall|p: Pgid| #[trigger] b.contains(p) <==> a.contains(p) || p == ids[i] by {
        if a.contains(p) {
            assert(b[a.index_of(p)] == p);
        }
        assert(b[i] == ids[i]);
        if b.contains(p) && p != ids[i] {
            assert(a[b.index_of(p)] == p);
        }
    }
}

/// Removes a run of ids from a set.
fn uncache_run(cache: &mut HashSet<Pgid>, start: Pgid, n: u64)
    requires
        start + n <= u64::MAX,
    ensures
        final(cache)@ == old(cache)@.difference(id_range(start as int, start + n)),
{
    let ghost c0 = cache@;
    let mut k: u64 = 0;
    assert(cache@ =~= c0.difference(id_range(start as int, start + 0)));
    while k < n
        invariant
            k <= n,
            start + n <= u64::MAX,
            cache@ == c0.difference(id_range(start as int, start + k)),
        decreases n - k,
    {
        cache.remove(&(start + k));
        k = k + 1;
        assert(cache@ =~= c0.difference(id_range(start as int, start + k)));
    }
}

/// Forgets the allocations of a transaction.
fn forget_tx(allocs: &mut HashMap<Pgid, Txid>, txid: Txid)
    ensures
        forall|p: Pgid| #[trigger]
            final(allocs)@.contains_key(p) <==> old(allocs)@.contains_key(p) && old(allocs)@[p] != txid,
        forall|p: Pgid| #[trigger]
            final(allocs)@.contains_key(p) ==> final(allocs)@[p] == old(allocs)@[p],
{
    let ghost a0 = allocs@;
    let keys: Vec<Pgid> = map_keys(&*allocs);
    let mut k: usize = 0;
    while k < keys.len()
        invariant
            k <= keys@.len(),
            keys@.no_duplicates(),
            forall|p: Pgid| #[trigger] keys@.contains(p) <==> a0.contains_key(p),
            forall|p: Pgid| #[trigger] allocs@.contains_key(p) <==> a0.contains_key(p) && !(a0[p] == txid
                && keys@.take(k as int).contains(p)),
            forall|p: Pgid| #[trigger] allocs@.contains_key(p) ==> allocs@[p] == a0[p],
        decreases keys@.len() - k,
    {
        let p: Pgid = keys[k];
        assert(keys@.contains(keys@[k as int]));
        proof {
            lemma_take_next(keys@, k as int);
        }
        let t: Option<&Txid> = allocs.get(&p);
        let mut gone: bool = false;
        if let Some(t) = t {
            gone = *t == txid;
        }
        if gone {
            allocs.remove(&p);
        }
        k = k + 1;
    }
    assert(keys@.take(k as int) =~= keys@);
}

/// Taking one element out of a list, by moving the last one to its place, takes it out of the
/// elements.
pub proof fn lemma_swap_remove<T>(s: Seq<T>, i: int)
    requires
        0 <= i < s.len(),
    ensures
        s.update(i, s.last()).drop_last().to_multiset() == s.to_multiset().remove(s[i]),
{
    broadcast use vstd::seq_lib::group_to_multiset_ensures;

    let n = s.len() - 1;
    let t = s.update(i, s.last()).drop_last();
    if i == n {
        assert(t =~= s.remove(i));
    } else {
        assert(t.push(s[i]) =~= s.update(i, s.last()).update(n, s[i]));
        assert(s.update(i, s.last()).update(n, s[i]).to_multiset() =~= s.to_multiset());
        assert(t.push(s[i]).to_multiset() =~= t.to_multiset().insert(s[i]));
        assert(t.to_multiset() =~= s.to_multiset().remove(s[i]));
    }
}

} // verus!
