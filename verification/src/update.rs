//! A change to a database as a whole: a transaction that is begun, worked on, and ended.
use vstd::prelude::*;
use crate::contents::contents;
use crate::error::{Error, Result};
use crate::freelist::FreelistV;
use crate::ledger::{ledger, since};
use crate::lifecycle::{begun_meta, lemma_rollback_begins};
use crate::node::{Base, Pages};
use crate::page::{Meta, Pgid};
use crate::plan::CommitPlan;
use crate::recovery::{lemma_new_stored, lemma_next_begins, written_out};
use crate::snapshot::{can_begin, clear, stored};
use crate::turns::held_by;
use crate::tx::{list_known, TxInner};

verus! {

/// A write transaction that is managed: what it began with, what it was worked into, what the work
/// answered, and how it ended.
pub struct Update<'a> {
    /// The meta that was committed last.
    pub committed: Meta,
    /// The transaction as it began, and the freelist then.
    pub begun: TxInner<'a>,
    pub list0: FreelistV,
    /// The transaction when the work was done, and the freelist then.
    pub done: TxInner<'a>,
    pub list1: FreelistV,
    /// What the work answered.
    pub answer: Result<()>,
    /// What the commit gave, with the freelist then.
    pub plan: CommitPlan,
    pub list2: FreelistV,
    pub no_sync: bool,
    /// The file afterwards.
    pub after: Pages<'a>,
}

/// A transaction that begins on a file sees what the meta leads to.
pub open spec fn begins_on(tx: TxInner, pages: Pages, meta: Meta) -> bool {
    &&& tx.pages == pages
    &&& tx.meta == meta
    &&& forall|base: Base| #[trigger]
        stored(pages, meta, base) ==> held_by(tx) == contents(base.forest[meta.root.root])
}

impl<'a> Update<'a> {
    /// The transaction began on the file.
    #[verifier::opaque]
    pub open spec fn began(self, base: Base) -> bool {
        let meta = begun_meta(self.committed, true);
        &&& self.committed.txid < u64::MAX
        &&& stored(self.begun.pages, meta, base)
        &&& clear(meta, base, self.list0)
        &&& begins_on(self.begun, self.begun.pages, meta)
    }

    /// The work left the transaction open and in order.
    #[verifier::opaque]
    pub open spec fn worked(self, base: Base) -> bool {
        let meta = begun_meta(self.committed, true);
        &&& self.done.managed
        &&& self.done.good()
        &&& self.done.pages == self.begun.pages
        &&& self.done.meta == meta
        &&& self.done.sound(self.list1)
        &&& since(self.list0, self.list1, meta.txid)
        &&& ledger(self.list1, base, meta.txid)
    }

    /// If the work went well the transaction was committed, and what the commit gave was written to
    /// the file; if not it was rolled back.
    #[verifier::opaque]
    pub open spec fn ended(self) -> bool {
        let tx = self.released();
        match self.answer {
            Ok(_) => {
                &&& tx.committed(self.plan, self.list1, self.list2, self.no_sync)
                &&& self.after.page_size == tx.pages.page_size
                &&& written_out(tx.pages.image@, self.after.image@, self.after.page_size as int, self.plan)
            },
            Err(_) => {
                &&& self.after == self.begun.pages
                &&& self.list2 == self.list1.rollback_v(begun_meta(self.committed, true).txid)
                &&& self.list2.ok()
            },
        }
    }

    /// All of this.
    pub open spec fn ok(self, base: Base) -> bool {
        self.began(base) && self.worked(base) && self.ended()
    }

    /// The transaction once it is no longer managed.
    pub open spec fn released(self) -> TxInner<'a> {
        TxInner { managed: false, ..self.done }
    }

    /// The meta that is committed last afterwards.
    pub open spec fn left(self) -> Meta {
        match self.answer {
            Ok(_) => self.plan.meta,
            Err(_) => self.committed,
        }
    }
}

/// If the work on a transaction goes well every later reader sees just what the work left, and if it
/// does not, just what was there before. In the meantime the work can neither commit the transaction
/// nor roll it back.
pub proof fn lemma_update(u: Update, base: Base, later: TxInner)
    requires
        u.ok(base),
        begins_on(later, u.after, u.left()),
    ensures
        u.done.commit_refused() == Some(Error::ManagedTx),
        u.done.rollback_refused() == Some(Error::ManagedTx),
        held_by(later) == (match u.answer {
            Ok(_) => held_by(u.done),
            Err(_) => held_by(u.begun),
        }),
        held_by(u.begun) == contents(base.forest[u.committed.root.root]),
{
    lemma_kept_open(u, base);
    match u.answer {
        Ok(_) => lemma_committed(u, base),
        Err(_) => lemma_rolled_back(u, base),
    }
}

/// Whether a transaction is managed makes no difference to what it holds.
proof fn lemma_released(tx: TxInner, list: FreelistV)
    requires
        tx.good(),
        tx.sound(list),
    ensures
        ({
            let after = TxInner { managed: false, ..tx };
            after.good() && after.sound(list) && held_by(after) == held_by(tx)
        }),
{
    let after = TxInner { managed: false, ..tx };
    assert forall|b: int| #[trigger] after.has(b) implies after.buckets@[b].ok(after.base@, true) by {
        assert(tx.has(b));
    }
}

proof fn lemma_kept_open(u: Update, base: Base)
    requires
        u.began(base),
        u.worked(base),
    ensures
        u.done.commit_refused() == Some(Error::ManagedTx),
        u.done.rollback_refused() == Some(Error::ManagedTx),
        held_by(u.begun) == contents(base.forest[u.committed.root.root]),
        begun_meta(u.committed, true).txid > 0,
{
    reveal(Update::began);
    reveal(Update::worked);
}

proof fn lemma_committed(u: Update, base: Base)
    requires
        u.worked(base),
        u.ended(),
        u.answer is Ok,
    ensures
        stored(u.after, u.plan.meta, u.plan.base@),
        contents(u.plan.base@.forest[u.plan.meta.root.root]) == held_by(u.done),
{
    assert(u.released().good() && held_by(u.released()) == held_by(u.done)) by {
        reveal(Update::worked);
        lemma_released(u.done, u.list1);
    }
    reveal(Update::ended);
    lemma_new_stored(u.released(), u.plan, u.list1, u.list2, u.no_sync, u.after);
}

proof fn lemma_rolled_back(u: Update, base: Base)
    requires
        u.began(base),
        u.ended(),
        u.answer is Err,
    ensures
        stored(u.after, u.committed, base),
{
    reveal(Update::began);
    reveal(Update::ended);
    reveal(list_known);
}

/// After an update, however it ended, the next write transaction can begin, and sees what later
/// readers see.
pub proof fn lemma_update_goes_on(u: Update, base: Base, list: FreelistV)
    requires
        u.ok(base),
        u.left().txid < u64::MAX,
        list.ok(),
        u.answer is Ok ==> list.all().subset_of(u.list2.all()) && !list.pending.contains_key((u.plan.meta.txid + 1) as u64)
            && forall|p: Pgid| #[trigger] list.allocs.contains_key(p) ==> list.allocs[p] != u.plan.meta.txid + 1,
        u.answer is Err ==> list == u.list2,
    ensures
        can_begin(u.after, begun_meta(u.left(), true), list, true),
{
    match u.answer {
        Ok(_) => {
            assert(u.released().good() && u.released().sound(u.list1)) by {
                reveal(Update::worked);
                lemma_released(u.done, u.list1);
            }
            reveal(Update::ended);
            lemma_next_begins(
                u.released(),
                u.plan,
                u.list1,
                u.list2,
                u.no_sync,
                u.after,
                begun_meta(u.plan.meta, true),
                list,
            );
        },
        Err(_) => {
            reveal(Update::began);
            reveal(Update::worked);
            reveal(Update::ended);
            lemma_rollback_begins(u.begun.pages, begun_meta(u.committed, true), base, u.list0, u.list1);
        },
    }
}

} // verus!
