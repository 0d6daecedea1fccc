//! A database in a file: what the meta page leads to, and what a commit makes of it.
use vstd::prelude::*;
use crate::bucket::BucketInner;
use crate::closing::{lemma_closed_contents, open_contents};
use crate::contents::{contents, lemma_nested_all, lemma_page_subs};
use crate::freelist::{Freelist, FreelistV};
use crate::inode::decode;
use crate::ledger::ledger;
use crate::node::{Base, Pages};
use crate::page::{Meta, Pgid};
use crate::reach::page_set;
use crate::stats::TxStats;
use crate::tree::{is_bucket, lemma_refs_split, root_of, Key, Tree};
use crate::tx::{default_merge, default_split, list_known, list_own, subs_linked, total, TxInner};
use crate::writer::{apart, fenced, page_size_ok, spare};

verus! {

/// The pages that a meta page leads to are a database.
pub open spec fn stored(pages: Pages, meta: Meta, base: Base) -> bool {
    let root = meta.root.root;
    &&& page_size_ok(pages.page_size as int)
    &&& base.ok()
    &&& pages.backs(base)
    &&& forall|q: Pgid| #[trigger] base.forest.contains_key(q) ==> base.old.contains(q)
    &&& base.old.contains(root)
    &&& base.forest[root].wf(None, None, true)
    &&& base.old == page_set(base.forest[root])
    &&& list_known(pages, meta, base)
    &&& base.limit == meta.pgid
}

/// No page of the database is free, or used twice, and nothing is left over from the transaction.
pub open spec fn clear(meta: Meta, base: Base, list: FreelistV) -> bool {
    &&& apart(base)
    &&& ledger(list, base, meta.txid)
    &&& fenced(base, list, meta.pgid)
    &&& forall|p: Pgid| #[trigger]
        base.forest[meta.root.root].refs(p) + list_own(base, p) + spare(list, meta.pgid, p) <= 1
}

/// Every page of the database is in use or at hand, and is so once.
pub open spec fn spent(meta: Meta, base: Base, list: FreelistV) -> bool {
    forall|p: Pgid| #[trigger]
        base.forest[meta.root.root].refs(p) + list_own(base, p) + spare(list, meta.pgid, p) == (if p <= 1 {
            0nat
        } else {
            1nat
        })
}

/// The image and the freelist are fit for a transaction to begin.
pub open spec fn can_begin(pages: Pages, meta: Meta, list: FreelistV, writable: bool) -> bool {
    exists|base: Base| #[trigger] stored(pages, meta, base) && (writable ==> clear(meta, base, list))
}

// ---------------------------------------------------------------------------------------------
// What is on the pages does not depend on how it is looked at.

/// Two readings of the same page are the same.
pub proof fn lemma_unique(pages: Pages, a: Base, b: Base, p: Pgid)
    requires
        a.ok(),
        b.ok(),
        pages.backs(a),
        pages.backs(b),
        forall|q: Pgid| #[trigger] a.forest.contains_key(q) ==> a.old.contains(q),
        forall|q: Pgid| #[trigger] b.forest.contains_key(q) ==> b.old.contains(q),
        a.old.contains(p),
        b.old.contains(p),
    ensures
        a.forest[p] == b.forest[p],
    decreases a.forest[p],
{
    let t = a.forest[p];
    let u = b.forest[p];
    assert(a.page_ok(p));
    assert(b.page_ok(p));
    assert(a.store[p] == b.store[p]);
    let page = a.store[p];
    match t {
        Tree::Leaf { items, subs, .. } => {
            assert(u is Leaf);
            assert(u->items == items);
            assert forall|i: int| 0 <= i < items.len() implies a.sub(items[i]) == b.sub(items[i]) by {
                assert(a.item_ok(items[i]));
                assert(b.item_ok(items[i]));
                if is_bucket(items[i]) && root_of(items[i]) != 0 {
                    let r = root_of(items[i]);
                    assert(subs[i] == Some(a.forest[r]));
                    assert(decreases_to!(t => t->subs));
                    assert(decreases_to!(t->subs => t->subs[i]));
                    assert(decreases_to!(t->subs[i] => t->subs[i]->0));
                    lemma_unique(pages, a, b, r);
                }
            }
            assert(a.subs(items) =~= b.subs(items));
        },
        Tree::Branch { keys, kids, .. } => {
            assert(u is Branch);
            assert(u->keys =~= keys);
            assert forall|i: int| 0 <= i < kids.len() implies u->kids[i] == kids[i] by {
                let r = decode(page)[i].pgid;
                assert(kids[i] == a.forest[r]);
                assert(u->kids[i] == b.forest[r]);
                lemma_unique(pages, a, b, r);
            }
            assert(u->kids =~= kids);
        },
    }
}

/// What is stored does not depend on how it is looked at.
pub proof fn lemma_same_contents(pages: Pages, meta: Meta, a: Base, b: Base)
    requires
        stored(pages, meta, a),
        stored(pages, meta, b),
    ensures
        a.forest[meta.root.root] == b.forest[meta.root.root],
        contents(a.forest[meta.root.root]) == contents(b.forest[meta.root.root]),
{
    lemma_unique(pages, a, b, meta.root.root);
}

impl<'a> TxInner<'a> {
    /// Begins a transaction on what a meta page leads to.
    pub fn new(pages: Pages<'a>, meta: Meta, writable: bool, fl: &Freelist) -> (tx: Self)
        requires
            can_begin(pages, meta, fl@, writable),
        ensures
            tx.good(),
            writable ==> tx.sound(fl@),
            tx.pages == pages,
            tx.meta == meta,
            tx.writable == writable,
            !tx.managed,
            !tx.closed,
            tx.opened,
            tx.stats == TxStats::zero(),
            tx.buckets@.len() == 1,
            tx.has(0),
            tx.buckets@[0].header == meta.root,
            tx.buckets@[0].root_node is None,
            tx.buckets@[0].inline_page is None,
            tx.buckets@[0].parent == 0,
            tx.buckets@[0].name@.len() == 0,
            tx.buckets@[0].subbuckets@.len() == 0,
            tx.buckets@[0].split_at == default_split(pages.page_size as int),
            tx.buckets@[0].merge_at == default_merge(pages.page_size as int),
            tx.base@.limit == meta.pgid,
            forall|base: Base| #[trigger]
                stored(pages, meta, base) ==> open_contents(tx.buckets@, tx.base@, 0) == contents(
                    base.forest[meta.root.root],
                ) && tx.items(0) == base.forest[meta.root.root].items(),
            forall|base: Base| #[trigger] stored(pages, meta, base) && spent(meta, base, fl@) ==> tx.full(fl@),
    {
        let ghost base = choose|base: Base| #[trigger]
            stored(pages, meta, base) && (writable ==> clear(meta, base, fl@));
        let root = BucketInner {
            header: meta.root,
            root_node: None,
            inline_page: None,
            subbuckets: Vec::new(),
            live: true,
            parent: 0,
            name: Vec::new(),
            split_at: pages.page_size / 2,
            merge_at: pages.page_size / 4,
        };
        let mut buckets: Vec<BucketInner> = Vec::new();
        buckets.push(root);
        let tx = TxInner {
            pages,
            writable,
            managed: false,
            closed: false,
            opened: true,
            meta,
            buckets,
            stats: TxStats::default(),
            base: Ghost(base),
        };
        proof {
            let bs = tx.buckets@;
            let t = base.forest[meta.root.root];
            assert(base.page_ok(meta.root.root));
            assert(bs[0].tree(base) == t);
            assert(subs_linked(bs, base, 0));
            assert(tx.good());
            assert(bs[0].opened() =~= Set::<Key>::empty());
            lemma_page_subs(base, t);
            assert forall|p: Pgid| #[trigger] total(bs, base, p) == t.refs(p) by {
                assert(bs.drop_last() =~= Seq::<BucketInner>::empty());
                assert(total(bs.drop_last(), base, p) == 0);
                assert(bs.last() == bs[0]);
                lemma_refs_split(t, p);
                lemma_nested_all(base, t.items(), p);
            }
            if writable {
                assert forall|p: Pgid| #[trigger]
                    total(bs, base, p) + list_own(base, p) + spare(fl@, meta.pgid, p) <= 1 by {
                    assert(total(bs, base, p) == t.refs(p));
                    assert(t.refs(p) + list_own(base, p) + spare(fl@, meta.pgid, p) <= 1);
                }
            }
            assert forall|other: Base| #[trigger] stored(pages, meta, other) && spent(meta, other, fl@) implies tx.full(fl@) by {
                lemma_same_contents(pages, meta, base, other);
                reveal(list_known);
                assert forall|p: Pgid| #[trigger]
                    total(bs, base, p) + list_own(base, p) + spare(fl@, meta.pgid, p) == (if p <= 1 {
                        0nat
                    } else {
                        1nat
                    }) by {
                    assert(total(bs, base, p) == t.refs(p));
                    assert(other.forest[meta.root.root].refs(p) + list_own(other, p) + spare(fl@, meta.pgid, p) == (
                    if p <= 1 {
                        0nat
                    } else {
                        1nat
                    }));
                }
            }
            lemma_closed_contents(bs, base, 0, true);
            assert forall|other: Base| #[trigger] stored(pages, meta, other) implies open_contents(bs, base, 0) == contents(
                other.forest[meta.root.root],
            ) && tx.items(0) == other.forest[meta.root.root].items() by {
                lemma_same_contents(pages, meta, base, other);
            }
        }
        tx
    }
}

} // verus!
