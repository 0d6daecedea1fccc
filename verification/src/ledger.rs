//! Which pages a transaction may free, and what freeing and allocating does to the freelist.
use vstd::prelude::*;
use crate::freelist::{Freelist, FreelistV};
use crate::node::Base;
use crate::page::{Pgid, Txid};

verus! {

/// How often page `p` is on the freelist.
pub open spec fn listed(list: FreelistV, p: Pgid) -> nat {
    if list.all().contains(p) {
        1
    } else {
        0
    }
}

/// Transaction `txid` has allocated only pages that were not there when it began, and has freed
/// none that it allocated itself.
pub open spec fn ledger(list: FreelistV, base: Base, txid: Txid) -> bool {
    &&& txid > 0
    &&& list.ok()
    &&& forall|p: Pgid| #[trigger] list.all().contains(p) ==> p < base.limit
    &&& forall|p: Pgid| #[trigger] list.allocs.contains_key(p) && list.allocs[p] == txid ==> !base.there(p)
    &&& forall|p: Pgid| #[trigger]
        list.pending_of(txid).pages.contains_key(p) ==> list.pending_of(txid).pages[p] != txid
}

/// What a transaction does to the freelist: it takes pages out of the free ones and adds pages to
/// those that it has freed.
pub open spec fn since(before: FreelistV, after: FreelistV, txid: Txid) -> bool {
    &&& after.kind == before.kind
    &&& after.readonly == before.readonly
    &&& after.free.subset_of(before.free)
    &&& forall|t: Txid|
        t != txid ==> (#[trigger] after.pending.contains_key(t) <==> before.pending.contains_key(t))
    &&& forall|t: Txid|
        t != txid && #[trigger] after.pending.contains_key(t) ==> after.pending[t] == before.pending[t]
    &&& forall|p: Pgid| #[trigger]
        before.pending_of(txid).pages.contains_key(p) ==> after.pending_of(txid).pages.contains_key(p)
}

/// Two steps are one step.
pub proof fn lemma_since(a: FreelistV, b: FreelistV, c: FreelistV, txid: Txid)
    requires
        since(a, b, txid),
        since(b, c, txid),
    ensures
        since(a, c, txid),
{
    assert forall|p: Pgid| #[trigger] a.pending_of(txid).pages.contains_key(p) implies c.pending_of(
        txid,
    ).pages.contains_key(p) by {
        assert(b.pending_of(txid).pages.contains_key(p));
    }
    assert forall|t: Txid| t != txid && #[trigger] c.pending.contains_key(t) implies c.pending[t] == a.pending[t] by {
        assert(b.pending.contains_key(t));
    }
}

/// Nothing done is a step.
pub proof fn lemma_since_same(a: FreelistV, txid: Txid)
    ensures
        since(a, a, txid),
{
}

/// Frees a page that was there when the transaction began.
pub fn free_page(fl: &mut Freelist, txid: Txid, pgid: Pgid, overflow: u32, Ghost(base): Ghost<Base>)
    requires
        old(fl).inv(),
        ledger(old(fl)@, base, txid),
        base.ok(),
        base.there(pgid),
        base.over_of(pgid) == overflow,
        forall|p: Pgid| pgid <= p <= pgid + overflow ==> listed(old(fl)@, p) == 0,
    ensures
        final(fl).inv(),
        ledger(final(fl)@, base, txid),
        since(old(fl)@, final(fl)@, txid),
        forall|p: Pgid| #[trigger]
            listed(final(fl)@, p) == listed(old(fl)@, p) + (if pgid <= p <= pgid + overflow { 1nat } else { 0nat }),
        final(fl)@.free == old(fl)@.free,
{
    let ghost v0 = fl@;
    assert(base.old.contains(pgid) ==> base.page_ok(pgid));
    assert forall|p: Pgid| pgid <= p <= pgid + overflow implies !(#[trigger] v0.all().contains(p)) by {
        assert(listed(v0, p) == 0);
    }
    fl.free(txid, pgid, overflow);
    proof {
        fl.lemma_inv();
        let w = fl@;
        assert(w.pending_of(txid) == w.pending[txid]);
        assert forall|p: Pgid| #[trigger] w.all().contains(p) implies p < base.limit by {
            assert(listed(w, p) == listed(v0, p) + (if pgid <= p <= pgid + overflow { 1nat } else { 0nat }));
        }
        assert forall|p: Pgid| #[trigger] w.pending_of(txid).pages.contains_key(p) implies w.pending_of(txid).pages[p]
            != txid by {
            if !(pgid <= p <= pgid + overflow) {
                assert(v0.pending_of(txid).pages.contains_key(p));
            }
        }
    }
}

} // verus!
