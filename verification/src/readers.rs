//! Which freed pages become free again while transactions still read.
use vstd::prelude::*;
use crate::freelist::FreelistV;
use crate::lifecycle::begun_list;
use crate::page::{Pgid, Txid};
use crate::pgids::sorted;

verus! {

/// Page `p`, which transaction `f` freed, may not be allocated yet.
pub open spec fn held_back(l: FreelistV, f: Txid, p: Pgid) -> bool {
    l.pending.contains_key(f) && l.pending[f].pages.contains_key(p)
}

/// One of the readers from the `i`th on began from transaction `a` to transaction `f`.
pub open spec fn read_between(readers: Seq<Txid>, i: int, a: Txid, f: Txid) -> bool {
    exists|j: int| i <= j < readers.len() && a <= #[trigger] readers[j] <= f
}

/// No reader from the `i`th on began much before `begin`.
spec fn none_before(readers: Seq<Txid>, i: int, begin: Txid) -> bool {
    &&& 0 <= i <= readers.len()
    &&& sorted(readers)
    &&& forall|j: int| 0 <= j < readers.len() ==> #[trigger] readers[j] < u64::MAX
    &&& forall|j: int| i <= j < readers.len() ==> #[trigger] readers[j] + 1 >= begin
}

/// Passes over later transactions leave alone what `f` freed.
proof fn lemma_past(l: FreelistV, i: int, begin: Txid, f: Txid, p: Pgid)
    requires
        none_before(l.readonly, i, begin),
        held_back(l, f, p),
        f < begin,
    ensures
        held_back(l.ranges_v(i, begin), f, p),
    decreases l.readonly.len() - i,
{
    if i < l.readonly.len() {
        let tid = l.readonly[i];
        let end: Txid = if tid > 0 { (tid - 1) as u64 } else { 0 };
        let later = l.range_v(begin, end);
        assert(later.readonly == l.readonly);
        assert(held_back(later, f, p));
        assert forall|j: int| i + 1 <= j < later.readonly.len() implies #[trigger] later.readonly[j] + 1 >= tid + 1 by {
            assert(l.readonly[i] <= l.readonly[j]);
        }
        lemma_past(later, i + 1, (tid + 1) as u64, f, p);
    }
}

/// What is not held back is not held back later.
proof fn lemma_gone(l: FreelistV, i: int, begin: Txid, f: Txid, p: Pgid)
    requires
        l.ok(),
        !held_back(l, f, p),
    ensures
        !held_back(l.ranges_v(i, begin), f, p),
{
    l.lemma_ranges(i, begin);
}

/// The passes between the readers hold back page `p` if it was allocated before the first of them or
/// if one of the readers may need it.
proof fn lemma_gap(l: FreelistV, i: int, begin: Txid, f: Txid, p: Pgid)
    requires
        l.ok(),
        none_before(l.readonly, i, begin),
        held_back(l, f, p),
        l.pending[f].pages[p] <= f,
        l.pending[f].last_begin == 0,
        1 <= begin <= f < u64::MAX,
    ensures
        held_back(l.ranges_v(i, begin), f, p) <==> l.pending[f].pages[p] < begin || read_between(
            l.readonly,
            i,
            l.pending[f].pages[p],
            f,
        ),
    decreases l.readonly.len() - i,
{
    let a = l.pending[f].pages[p];
    let readers = l.readonly;
    if i == readers.len() {
        assert(l.in_pass(f, begin, u64::MAX));
        let later = l.range_v(begin, u64::MAX);
        let left = l.pending[f].without(begin, u64::MAX);
        assert(a < begin ==> left.pages.dom().contains(p));
        assert(held_back(later, f, p) <==> a < begin);
    } else {
        let tid = readers[i];
        let end: Txid = if tid > 0 { (tid - 1) as u64 } else { 0 };
        let next = (tid + 1) as u64;
        let later = l.range_v(begin, end);
        assert(later.readonly == readers);
        l.lemma_range(begin, end);
        l.lemma_only_moved(later);
        assert forall|j: int| i + 1 <= j < readers.len() implies #[trigger] readers[j] + 1 >= next by {
            assert(readers[i] <= readers[j]);
        }
        if f < tid {
            assert(l.in_pass(f, begin, end));
            let left = l.pending[f].without(begin, end);
            assert(a < begin ==> left.pages.dom().contains(p));
            assert(held_back(later, f, p) <==> a < begin);
            if a < begin {
                lemma_past(later, i + 1, next, f, p);
            } else {
                lemma_gone(later, i + 1, next, f, p);
                assert forall|j: int| i <= j < readers.len() implies #[trigger] readers[j] > f by {
                    assert(readers[i] <= readers[j]);
                }
            }
        } else {
            assert(!l.in_pass(f, begin, end) || begin > end);
            assert(later.pending[f] == l.pending[f]);
            assert(held_back(later, f, p));
            if f == tid {
                lemma_past(later, i + 1, next, f, p);
                assert(a <= readers[i] <= f);
            } else {
                lemma_gap(later, i + 1, next, f, p);
                if a <= tid {
                    assert(a <= readers[i] <= f);
                } else {
                    assert(read_between(readers, i, a, f) ==> read_between(readers, i + 1, a, f)) by {
                        if read_between(readers, i, a, f) {
                            let j = choose|j: int| i <= j < readers.len() && a <= #[trigger] readers[j] <= f;
                            assert(j != i);
                            assert(a <= readers[j] <= f);
                        }
                    }
                    if read_between(readers, i + 1, a, f) {
                        let j = choose|j: int| i + 1 <= j < readers.len() && a <= #[trigger] readers[j] <= f;
                        assert(a <= readers[j] <= f);
                    }
                }
            }
        }
    }
}

/// The same of all that is done before a write transaction, with the readers sorted.
proof fn lemma_released(l: FreelistV, f: Txid, p: Pgid)
    requires
        l.ok(),
        none_before(l.readonly, 0, 0),
        held_back(l, f, p),
        l.pending[f].pages[p] <= f < u64::MAX,
        l.pending[f].last_begin == 0,
    ensures
        held_back(l.release_pending_v(), f, p) <==> read_between(l.readonly, 0, l.pending[f].pages[p], f),
{
    let readers = l.readonly;
    let a = l.pending[f].pages[p];
    let first: Txid = if readers.len() > 0 { readers[0] } else { u64::MAX };
    if first > 0 {
        let below = l.release_v((first - 1) as u64);
        l.lemma_release((first - 1) as u64);
        l.lemma_only_moved(below);
        if f < first {
            assert(!held_back(below, f, p));
            lemma_gone(below, 0, first, f, p);
            assert forall|j: int| 0 <= j < readers.len() implies #[trigger] readers[j] > f by {
                assert(readers[0] <= readers[j]);
            }
        } else {
            assert(below.pending[f] == l.pending[f]);
            assert forall|j: int| 0 <= j < readers.len() implies #[trigger] readers[j] + 1 >= first by {
                assert(readers[0] <= readers[j]);
            }
            lemma_gap(below, 0, first, f, p);
            if a < first {
                assert(a <= readers[0] <= f);
            }
        }
    } else {
        let later = l.range_v(0, 0);
        l.lemma_range(0, 0);
        l.lemma_only_moved(later);
        assert(!l.in_pass(f, 0, 0));
        assert(later.pending[f] == l.pending[f]);
        assert(l.release_pending_v() == later.ranges_v(1, 1));
        if f == 0 {
            lemma_past(later, 1, 1, f, p);
            assert(a <= readers[0] <= f);
        } else {
            lemma_gap(later, 1, 1, f, p);
            if a < 1 {
                assert(a <= readers[0] <= f);
            } else {
                if read_between(readers, 0, a, f) {
                    let j = choose|j: int| 0 <= j < readers.len() && a <= #[trigger] readers[j] <= f;
                    assert(j != 0);
                    assert(a <= readers[j] <= f);
                }
                if read_between(readers, 1, a, f) {
                    let j = choose|j: int| 1 <= j < readers.len() && a <= #[trigger] readers[j] <= f;
                    assert(a <= readers[j] <= f);
                }
            }
        }
    }
}

/// What a list holds once the pages that no reader needs were released.
pub open spec fn released(before: FreelistV, after: FreelistV) -> bool {
    &&& sorted(after.readonly)
    &&& after.readonly.to_multiset() == before.readonly.to_multiset()
    &&& after == (FreelistV { readonly: after.readonly, ..before }).release_pending_v()
}

/// A page that was allocated by transaction `a` and freed by transaction `f` becomes free with the
/// first release after that just if no open reader began from `a` to `f`: such a reader may still
/// come to the page. No page is lost either way.
pub proof fn lemma_release_exact(before: FreelistV, after: FreelistV, f: Txid, p: Pgid)
    requires
        before.ok(),
        released(before, after),
        held_back(before, f, p),
        before.pending[f].pages[p] <= f < u64::MAX,
        before.pending[f].last_begin == 0,
        forall|j: int| 0 <= j < before.readonly.len() ==> #[trigger] before.readonly[j] < u64::MAX,
    ensures
        after.free.contains(p) <==> !(exists|r: Txid| #[trigger]
            before.readonly.contains(r) && before.pending[f].pages[p] <= r <= f),
        !after.free.contains(p) ==> held_back(after, f, p),
        after.all() == before.all(),
{
    let l = FreelistV { readonly: after.readonly, ..before };
    let a = before.pending[f].pages[p];
    let readers = after.readonly;
    assert(l.pending_pages() =~= before.pending_pages());
    assert(l.ok());
    lemma_same_readers(before.readonly, readers);
    assert forall|j: int| 0 <= j < readers.len() implies #[trigger] readers[j] < u64::MAX by {
        assert(readers.contains(readers[j]));
        assert(before.readonly.contains(readers[j]));
        let k = before.readonly.index_of(readers[j]);
        assert(before.readonly[k] < u64::MAX);
    }
    lemma_released(l, f, p);
    l.lemma_release_pending();
    l.lemma_only_moved(after);
    assert(read_between(readers, 0, a, f) <==> exists|r: Txid| #[trigger]
        before.readonly.contains(r) && a <= r <= f) by {
        if read_between(readers, 0, a, f) {
            let j = choose|j: int| 0 <= j < readers.len() && a <= #[trigger] readers[j] <= f;
            assert(before.readonly.contains(readers[j]));
        }
        if exists|r: Txid| #[trigger] before.readonly.contains(r) && a <= r <= f {
            let r = choose|r: Txid| #[trigger] before.readonly.contains(r) && a <= r <= f;
            let j = readers.index_of(r);
            assert(a <= readers[j] <= f);
        }
    }
    assert(l.pending_pages().contains(p));
    assert(!l.free.contains(p));
    assert(after.pending_pages().contains(p) <==> held_back(after, f, p)) by {
        if after.pending_pages().contains(p) {
            let t = choose|t: Txid| #[trigger] after.pending.contains_key(t) && after.pending[t].pages.contains_key(p);
            assert(l.pending.contains_key(t) && l.pending[t].pages.contains_key(p));
            assert(t == f);
        }
    }
    assert(after.all() =~= before.all());
}

proof fn lemma_same_readers(a: Seq<Txid>, b: Seq<Txid>)
    requires
        a.to_multiset() == b.to_multiset(),
    ensures
        forall|r: Txid| #[trigger] a.contains(r) <==> b.contains(r),
{
    a.to_multiset_ensures();
    b.to_multiset_ensures();
    assert forall|r: Txid| #[trigger] a.contains(r) <==> b.contains(r) by {
        assert(a.contains(r) <==> a.to_multiset().count(r) > 0);
        assert(b.contains(r) <==> b.to_multiset().count(r) > 0);
    }
}

/// A writer that begins finds free just those of the freed pages that no open reader can come to, and
/// a reader that begins is recorded and changes nothing else.
pub proof fn lemma_begin_releases(before: FreelistV, after: FreelistV, txid: Txid, writable: bool, f: Txid, p: Pgid)
    requires
        before.ok(),
        begun_list(before, after, txid, writable),
        held_back(before, f, p),
        before.pending[f].pages[p] <= f < u64::MAX,
        before.pending[f].last_begin == 0,
        forall|j: int| 0 <= j < before.readonly.len() ==> #[trigger] before.readonly[j] < u64::MAX,
    ensures
        writable ==> (after.free.contains(p) <==> !(exists|r: Txid| #[trigger]
            before.readonly.contains(r) && before.pending[f].pages[p] <= r <= f)),
        after.all() == before.all(),
        writable ==> after.readonly.to_multiset() == before.readonly.to_multiset(),
        !writable ==> after.readonly.last() == txid && after.readonly.drop_last() == before.readonly && after.free
            == before.free && after.pending == before.pending,
{
    if writable {
        lemma_release_exact(before, after, f, p);
    } else {
        assert(after.readonly.drop_last() =~= before.readonly);
        assert(after.pending_pages() =~= before.pending_pages());
    }
}

} // verus!
