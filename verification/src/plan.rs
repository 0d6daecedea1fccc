//! What a commit writes to the file.
use vstd::prelude::*;
use crate::commit::list_page;
use crate::freelist::FreelistV;
use crate::node::Base;
use crate::page::{header_of, Meta, PGID_NO_FREELIST, Pgid};
use crate::reach::page_set;
use crate::writer::{apart, covers};

verus! {

/// What a commit writes to the file: first the pages, then, when these are safe on disk, the meta
/// page that makes them count.
pub struct CommitPlan {
    /// The new pages.
    pub pages: Vec<(Pgid, Vec<u8>)>,
    /// The new meta.
    pub meta: Meta,
    /// The page of the new meta. Its place is that of page zero or one, by its transaction.
    pub meta_page: Vec<u8>,
    /// The size that the file must have at least, where it has to grow.
    pub grow_to: Option<u128>,
    /// The pages that the new meta leads to.
    pub base: Ghost<Base>,
}

/// New page `i` covers page `p`.
pub open spec fn on_page(pages: Seq<(Pgid, Vec<u8>)>, page_size: int, i: int, p: Pgid) -> bool {
    pages[i].0 <= p < pages[i].0 + pages[i].1@.len() as int / page_size
}

/// Page `q`, reached by the new meta, is where it was or new.
pub open spec fn page_there(base: Base, plan: CommitPlan, q: Pgid) -> bool {
    let b = plan.base@;
    ||| base.old.contains(q) && b.store[q] == base.store[q] && b.forest[q].over() == base.forest[q].over()
    ||| exists|i: int|
        0 <= i < plan.pages@.len() && (#[trigger] plan.pages@[i]).0 == q && plan.pages@[i].1@ == b.store[q]
}

/// The new page of the freelist is there.
pub open spec fn list_there(plan: CommitPlan, list: FreelistV) -> bool {
    let b = plan.base@;
    if b.list_pgid == 0 {
        plan.meta.freelist == PGID_NO_FREELIST
    } else {
        &&& plan.meta.freelist == b.list_pgid
        &&& b.list_pgid != PGID_NO_FREELIST
        &&& exists|i: int|
            0 <= i < plan.pages@.len() && (#[trigger] plan.pages@[i]).0 == b.list_pgid && list_page(
                list,
                b.list_pgid,
                plan.pages@[i].1@,
            ) && header_of(plan.pages@[i].1@).overflow == b.list_over && plan.pages@[i].1@.len() == (b.list_over + 1)
                * b.page_size
    }
}

/// The new pages together with those that were there are a database, and nothing that was there is
/// written over.
pub open spec fn planned(base: Base, plan: CommitPlan, list: FreelistV) -> bool {
    let b = plan.base@;
    let ps = base.page_size;
    let pages = plan.pages@;
    &&& b.ok()
    &&& b.page_size == ps
    &&& apart(b)
    &&& b.limit == plan.meta.pgid
    &&& forall|q: Pgid| #[trigger] b.forest.contains_key(q) ==> b.old.contains(q)
    &&& b.old.contains(plan.meta.root.root)
    &&& b.forest[plan.meta.root.root].wf(None, None, true)
    &&& b.old == page_set(b.forest[plan.meta.root.root])
    &&& forall|i: int|
        0 <= i < pages.len() ==> {
            let n = (#[trigger] pages[i]).1@.len() as int / ps;
            &&& pages[i].0 > 1
            &&& n >= 1
            &&& pages[i].1@.len() == n * ps
            &&& pages[i].0 + n <= plan.meta.pgid
        }
    &&& forall|i: int, j: int, p: Pgid|
        0 <= i < j < pages.len() && #[trigger] on_page(pages, ps, i, p) ==> !(#[trigger] on_page(pages, ps, j, p))
    &&& forall|i: int, q: Pgid, p: Pgid|
        0 <= i < pages.len() && #[trigger] covers(base, q, p) ==> !(#[trigger] on_page(pages, ps, i, p))
    &&& forall|q: Pgid| #[trigger] b.old.contains(q) ==> page_there(base, plan, q)
    &&& list_there(plan, list)
}

} // verus!
