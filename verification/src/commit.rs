//! Committing: what a transaction has changed becomes pages to be written.
use vstd::prelude::*;
use crate::bucket::{BucketId, BucketInner};
use crate::closing::{closes, lemma_bucket_grows, lemma_closed_contents, lemma_closes_contents, lemma_closes_linked, lemma_closes_total, open_contents, open_entry};
use crate::contents::{contents, entry, inline_contents, item_refs, lemma_contents, lemma_paired, Item};
use crate::demand::{lemma_need_first, lemma_need_less, lemma_wide_cost, need, wide_cost};
use crate::edits::{edits_bucket, lemma_edits_same, Edit};
use crate::error::{Error, Result};
use crate::freelist::{written_list, Freelist, FreelistV};
use crate::inode::{decode, page_len, Inode, InodeV};
use crate::join::lemma_loosen;
use crate::ledger::{free_page, ledger, lemma_since, lemma_since_same, listed, since};
use crate::nesting::freed;
use crate::node::{inline_page, Base, Node, Pages};
use crate::page::{header_of, is_meta_page_of, write_meta_page, zero_from, BUCKET_LEAF_FLAG, InBucket, Meta, PGID_NO_FREELIST, PageHeader, Pgid, Txid};
use crate::pgids::freelist_size;
use crate::phases::{all_smoothed, closed_as, closed_from, closed_one, is_next, laid_out, lemma_closed_more, lemma_closed_none, lemma_to_write, next_pieces, pieces_from, root_written, smoothed, to_write, written_to, Phase};
use crate::pieces::{all_pages, grew, grew_by, halted, halted_at, lemma_grew, lemma_grew_more, lemma_grew_most, lemma_grew_none, lemma_halted_later, lemma_pages_take, no_run};
use crate::plan::{list_there, on_page, page_there, planned, CommitPlan};
use crate::reach::{lemma_reached, reached};
use crate::release::{can_free, claim, lemma_claim_all};
use crate::seal::{bucket_item, bucket_pieces, filed, lemma_spilled_root, lemma_wide_fits, lemma_wide_with, seal, seal_top, sealed, top_pieces, wide, wide_fits};
use crate::spans::{id_range, is_run};
use crate::spill::{lemma_went_on, spill_root, went_on};
use crate::tree::{at_key, is_bucket, key_ok, lemma_pos, pos, root_of, sequence_of, with_item, Key};
use crate::tx::{as_stored, bucket_at, bucket_refs, known, lemma_sub_at, lemma_total_update, linked, list_known, list_own, sub_id, subs_linked, total, TxInner};
use crate::writer::{apart, covers, extends, fenced, in_limit, lemma_stuck_below, pages_for, spare, stuck, stuck_at, stuck_on, too_big, trim, within_limit, Writer};

verus! {

// ---------------------------------------------------------------------------------------------
// Rebalancing.

/// Bucket `b` in a form that holds the same.
pub open spec fn same_inside(b: BucketInner, c: BucketInner, base: Base) -> bool {
    &&& c.same_but_root(b)
    &&& c.root_node is None <==> b.root_node is None
    &&& c.items(base) == b.items(base)
}

/// Buckets in a form that holds the same hang together in the same way.
proof fn lemma_same_linked(bs: Seq<BucketInner>, cs: Seq<BucketInner>, base: Base)
    requires
        linked(bs, base),
        cs.len() == bs.len(),
        forall|b: int| #![trigger cs[b]] #![trigger bs[b]] 0 <= b < bs.len() ==> same_inside(bs[b], cs[b], base),
    ensures
        linked(cs, base),
{
    assert(cs[0].live == bs[0].live);
    assert forall|b: int| #![trigger cs[b]] 0 <= b < cs.len() && cs[b].live implies subs_linked(cs, base, b) by {
        assert(bs[b].live);
        assert(subs_linked(bs, base, b));
        assert forall|i: int| 0 <= i < cs[b].subbuckets@.len() implies {
            let c = (#[trigger] cs[b].subbuckets@[i]).1;
            &&& b < c < cs.len()
            &&& cs[c as int].live
            &&& cs[c as int].parent == b
            &&& cs[c as int].name@ == cs[b].subbuckets@[i].0@
            &&& bucket_at(cs[b].items(base), cs[b].subbuckets@[i].0@)
            &&& as_stored(cs[c as int], at_key(cs[b].items(base), cs[b].subbuckets@[i].0@)->0)
        } by {
            let c = bs[b].subbuckets@[i].1 as int;
            assert(bs[c].live);
            assert(same_inside(bs[c], cs[c], base));
        }
    }
    assert forall|c: int| #![trigger cs[c]] 0 < c < cs.len() && cs[c].live implies known(cs, c) by {
        assert(bs[c].live);
        assert(known(bs, c));
        let q = bs[c].parent as int;
        assert(same_inside(bs[q], cs[q], base));
        let i = choose|i: int| 0 <= i < bs[q].subbuckets@.len() && (#[trigger] bs[q].subbuckets@[i]).1 == c;
        assert(cs[q].subbuckets@[i].1 == c);
    }
}

/// Buckets in a form that holds the same hold the same together.
proof fn lemma_same_contents(bs: Seq<BucketInner>, cs: Seq<BucketInner>, base: Base, b: int)
    requires
        cs.len() == bs.len(),
        0 <= b < bs.len(),
        forall|b: int| #![trigger cs[b]] #![trigger bs[b]] 0 <= b < bs.len() ==> same_inside(bs[b], cs[b], base),
    ensures
        open_contents(cs, base, b) == open_contents(bs, base, b),
    decreases bs.len() - b,
{
    let s = bs[b].items(base);
    assert(same_inside(bs[b], cs[b], base));
    assert forall|i: int| 0 <= i < s.len() implies open_contents(cs, base, b)[i] == open_contents(bs, base, b)[i] by {
        assert(open_contents(bs, base, b)[i] == open_entry(bs, base, b, s[i]));
        assert(open_contents(cs, base, b)[i] == open_entry(cs, base, b, s[i]));
        match sub_id(bs[b].subbuckets@, s[i].key) {
            Some(c) => {
                if b < c < bs.len() {
                    assert(same_inside(bs[c as int], cs[c as int], base));
                    lemma_same_contents(bs, cs, base, c as int);
                }
            },
            None => {},
        }
    }
    assert(open_contents(cs, base, b) =~= open_contents(bs, base, b));
}

impl<'a> TxInner<'a> {
    /// Rebalances one bucket.
    fn rebalance_bucket(&mut self, b: BucketId, fl: &mut Freelist)
        requires
            old(self).base@.ok(),
            old(self).pages.backs(old(self).base@),
            old(self).has(b as int),
            old(self).buckets@[b as int].ok(old(self).base@, true),
            old(fl).inv(),
            can_free(old(self).base@, old(fl)@, old(self).meta.txid),
            forall|p: Pgid| #[trigger]
                bucket_refs(old(self).buckets@[b as int], old(self).base@, p) + listed(old(fl)@, p) <= 1,
        ensures
            final(self).same_but(old(self), b as int),
            same_inside(old(self).buckets@[b as int], final(self).buckets@[b as int], old(self).base@),
            smoothed(old(self).buckets@[b as int], final(self).buckets@[b as int], old(self).base@),
            final(self).buckets@[b as int].ok(old(self).base@, false),
            final(self).buckets@[b as int].flags() == 0,
            final(fl).inv(),
            freed(old(self).base@, old(fl)@, final(fl)@, old(self).meta.txid),
            forall|p: Pgid| #[trigger]
                bucket_refs(final(self).buckets@[b as int], old(self).base@, p) + listed(final(fl)@, p) == bucket_refs(
                    old(self).buckets@[b as int],
                    old(self).base@,
                    p,
                ) + listed(old(fl)@, p),
    {
        let ghost base = self.base@;
        let ghost before = self.buckets@[b as int];
        let ghost list0 = fl@;
        proof {
            lemma_loosen(before.tree(base), None, None, 2);
            lemma_since_same(list0, self.meta.txid);
        }
        let merge_at: usize = self.buckets[b].merge_at;
        let mut n: Box<Node> = match self.buckets[b].root_node.take() {
            None => {
                return;
            },
            Some(n) => n,
        };
        let ghost n0 = *n;
        proof {
            assert forall|p: Pgid| #[trigger] n0.tree(base).uses(p) + listed(list0, p) <= 1 by {
                assert(bucket_refs(before, base, p) + listed(list0, p) <= 1);
            }
        }
        n.rebalance_node(merge_at, &self.pages, fl, self.meta.txid, self.base);
        proof {
            assert(n.tree(base).pgid() == n.pgid);
            assert(n0.tree(base).pgid() == n0.pgid);
        }
        let ghost n1 = *n;
        self.buckets[b].root_node = Some(n);
        proof {
            let after = self.buckets@[b as int];
            assert(after.opened() == before.opened());
            assert forall|p: Pgid| #[trigger]
                bucket_refs(after, base, p) + listed(fl@, p) == bucket_refs(before, base, p) + listed(list0, p) by {
                assert(n1.tree(base).uses(p) + listed(fl@, p) == n0.tree(base).uses(p) + listed(list0, p));
            }
        }
    }

    /// Rebalances all open buckets.
    fn rebalance_all(&mut self, fl: &mut Freelist)
        requires
            old(self).good(),
            old(fl).inv(),
            old(self).sound(old(fl)@),
        ensures
            *final(self) == (TxInner { buckets: final(self).buckets, ..*old(self) }),
            final(self).buckets@.len() == old(self).buckets@.len(),
            linked(final(self).buckets@, final(self).base@),
            forall|b: int|
                #![trigger final(self).buckets@[b]]
                0 <= b < old(self).buckets@.len() ==> same_inside(
                    old(self).buckets@[b],
                    final(self).buckets@[b],
                    old(self).base@,
                ),
            forall|b: int|
                #![trigger final(self).buckets@[b]]
                0 <= b < old(self).buckets@.len() && old(self).buckets@[b].live ==> smoothed(
                    old(self).buckets@[b],
                    final(self).buckets@[b],
                    old(self).base@,
                ),
            forall|b: int| #[trigger]
                final(self).has(b) ==> final(self).buckets@[b].ok(final(self).base@, false)
                    && final(self).buckets@[b].flags() == 0,
            open_contents(final(self).buckets@, final(self).base@, 0) == open_contents(
                old(self).buckets@,
                old(self).base@,
                0,
            ),
            final(fl).inv(),
            freed(old(self).base@, old(fl)@, final(fl)@, old(self).meta.txid),
            forall|p: Pgid| #[trigger]
                total(final(self).buckets@, old(self).base@, p) + listed(final(fl)@, p) == total(
                    old(self).buckets@,
                    old(self).base@,
                    p,
                ) + listed(old(fl)@, p),
    {
        let ghost t0 = *self;
        let ghost bs = self.buckets@;
        let ghost base = self.base@;
        let ghost list0 = fl@;
        let n: usize = self.buckets.len();
        let mut b: usize = 0;
        proof {
            lemma_since_same(list0, self.meta.txid);
        }
        while b < n
            invariant
                t0 == *old(self),
                t0.good(),
                t0.sound(list0),
                list0 == old(fl)@,
                bs == t0.buckets@,
                base == t0.base@,
                n == bs.len(),
                b <= n,
                *self == (TxInner { buckets: self.buckets, ..t0 }),
                self.buckets@.len() == n,
                forall|c: int| #![trigger self.buckets@[c]] b <= c < n ==> self.buckets@[c] == bs[c],
                forall|c: int| #![trigger self.buckets@[c]] 0 <= c < n ==> same_inside(bs[c], self.buckets@[c], base),
                forall|c: int|
                    #![trigger self.buckets@[c]]
                    0 <= c < b && self.buckets@[c].live ==> self.buckets@[c].ok(base, false) && self.buckets@[c].flags()
                        == 0,
                forall|c: int|
                    #![trigger self.buckets@[c]]
                    0 <= c < b && bs[c].live ==> smoothed(bs[c], self.buckets@[c], base),
                fl.inv(),
                freed(base, list0, fl@, t0.meta.txid),
                forall|p: Pgid| #[trigger]
                    total(self.buckets@, base, p) + listed(fl@, p) == total(bs, base, p) + listed(list0, p),
            decreases n - b,
        {
            if self.buckets[b].live {
                let ghost cs = self.buckets@;
                let ghost list1 = fl@;
                proof {
                    assert(cs[b as int] == bs[b as int]);
                    assert(t0.has(b as int));
                    assert forall|p: Pgid| #[trigger] bucket_refs(cs[b as int], base, p) + listed(list1, p) <= 1 by {
                        lemma_total_update(cs, b as int, cs[b as int], base, p);
                        assert(total(cs, base, p) + listed(list1, p) == total(bs, base, p) + listed(list0, p));
                        assert(total(bs, base, p) + list_own(base, p) + spare(list0, t0.meta.pgid, p) <= 1);
                    }
                }
                self.rebalance_bucket(b, fl);
                proof {
                    lemma_since(list0, list1, fl@, t0.meta.txid);
                    let ds = self.buckets@;
                    assert(ds =~= cs.update(b as int, ds[b as int]));
                    assert forall|p: Pgid| #[trigger]
                        total(ds, base, p) + listed(fl@, p) == total(bs, base, p) + listed(list0, p) by {
                        lemma_total_update(cs, b as int, ds[b as int], base, p);
                        assert(bucket_refs(ds[b as int], base, p) + listed(fl@, p) == bucket_refs(cs[b as int], base, p)
                            + listed(list1, p));
                        assert(total(cs, base, p) + listed(list1, p) == total(bs, base, p) + listed(list0, p));
                    }
                }
            }
            b = b + 1;
        }
        proof {
            let cs = self.buckets@;
            assert forall|c: int| #![trigger cs[c]] #![trigger bs[c]] 0 <= c < bs.len() implies same_inside(
                bs[c],
                cs[c],
                base,
            ) by {
                assert(same_inside(bs[c], self.buckets@[c], base));
            }
            lemma_same_linked(bs, cs, base);
            lemma_same_contents(bs, cs, base, 0);
        }
    }
}

// ---------------------------------------------------------------------------------------------
// Closing.

/// The buckets up to `d` that are open are ready to be written.
pub open spec fn stage(tx: TxInner, w: Writer, list: FreelistV, d: int) -> bool {
    let base = w.base@;
    &&& w.ok(list)
    &&& w.page_size == tx.pages.page_size
    &&& tx.pages.backs(base)
    &&& linked(tx.buckets@, base)
    &&& forall|b: int|
        #![trigger tx.buckets@[b]]
        0 <= b < tx.buckets@.len() && tx.buckets@[b].live ==> {
            &&& tx.buckets@[b].ok(base, false)
            &&& tx.buckets@[b].flags() == 0
            &&& wide_fits(tx.buckets@[b].items(base), w.page_size as int)
            &&& b <= d
        }
    &&& tx.buckets@[0].root_node is None ==> tx.buckets@[0].tree(base).wf(None, None, true)
    &&& forall|p: Pgid| #[trigger] total(tx.buckets@, base, p) + list_own(base, p) + spare(list, w.hwm, p) <= 1
}

/// From one stage to the next nothing is lost.
pub open spec fn kept(tx0: TxInner, tx1: TxInner, w0: Writer, w1: Writer, list0: FreelistV, list1: FreelistV) -> bool {
    &&& tx1 == (TxInner { buckets: tx1.buckets, ..tx0 })
    &&& tx1.buckets@.len() == tx0.buckets@.len()
    &&& tx1.buckets@[0].header == tx0.buckets@[0].header
    &&& tx1.buckets@[0].split_at == tx0.buckets@[0].split_at
    &&& open_contents(tx1.buckets@, w1.base@, 0) == open_contents(tx0.buckets@, w0.base@, 0)
    &&& forall|p: Pgid| #[trigger]
        total(tx1.buckets@, w1.base@, p) + spare(list1, w1.hwm, p) == total(tx0.buckets@, w0.base@, p) + spare(
            list0,
            w0.hwm,
            p,
        )
    &&& went_on(w0, w1, list0, list1)
}

/// The image still holds the pages that were there when there are more pages.
pub proof fn lemma_backs(pages: Pages, a: Base, b: Base)
    requires
        a.ok(),
        extends(a, b),
        pages.backs(a),
    ensures
        pages.backs(b),
{
    assert forall|p: Pgid| #[trigger] b.old.contains(p) implies pages.has(p) && pages.bytes(p) == b.store[p] by {
        assert(a.forest.contains_key(p));
    }
}

/// A bucket that was not changed is closed by forgetting it.
proof fn lemma_unchanged(bs: Seq<BucketInner>, base: Base, d: int, v: InodeV)
    requires
        base.ok(),
        0 <= d < bs.len(),
        bs[d].ok(base, false),
        bs[d].live,
        bs[d].subbuckets@.len() == 0,
        bs[d].root_node is None,
        as_stored(bs[d], v),
        is_bucket(v),
        base.item_ok(v),
    ensures
        entry(v, base.sub(v)) == (
            v.key,
            Item::Bucket { sequence: bs[d].header.sequence, items: open_contents(bs, base, d) },
        ),
        forall|p: Pgid| #[trigger] item_refs(base, v, p) == claim(base, bs[d].tree(base), Set::empty(), p),
{
    lemma_closed_contents(bs, base, d, false);
    TxInner::lemma_fresh(base, bs[d], v);
    assert(sequence_of(v) == bs[d].header.sequence);
    assert(root_of(v) == bs[d].header.root);
    if root_of(v) == 0 {
        let t = bs[d].tree(base);
        let page = inline_page(v.value);
        lemma_paired(t, None, None, false, 2);
        lemma_contents(t);
        assert forall|i: int| 0 <= i < decode(page).len() implies inline_contents(page)[i] == contents(t)[i] by {
            assert(!is_bucket(decode(page)[i]));
        }
        assert(inline_contents(page) =~= contents(t));
    }
    assert forall|p: Pgid| #[trigger] item_refs(base, v, p) == claim(base, bs[d].tree(base), Set::empty(), p) by {
        assert(bucket_refs(bs[d], base, p) == item_refs(base, v, p));
    }
}

/// What follows from closing a bucket.
proof fn lemma_closed(
    tx0: TxInner,
    tx1: TxInner,
    w0: Writer,
    w1: Writer,
    list0: FreelistV,
    list1: FreelistV,
    d: int,
    r: int,
    v: InodeV,
)
    requires
        stage(tx0, w0, list0, d),
        went_on(w0, w1, list0, list1),
        closes(tx0.buckets@, w0.base@, tx1.buckets@, w1.base@, d, r, v),
        tx1 == (TxInner { buckets: tx1.buckets, ..tx0 }),
        v.value.len() <= w0.page_size || tx1.buckets@[tx0.buckets@[d].parent as int].items(w1.base@)
            == tx0.buckets@[tx0.buckets@[d].parent as int].items(w0.base@),
        tx1.buckets@[tx0.buckets@[d].parent as int].flags() == 0,
        entry(v, w1.base@.sub(v)) == (
            v.key,
            Item::Bucket {
                sequence: tx0.buckets@[d].header.sequence,
                items: open_contents(tx0.buckets@, w0.base@, d),
            },
        ),
        forall|p: Pgid| #[trigger]
            item_refs(w1.base@, v, p) + spare(list1, w1.hwm, p) == claim(
                w0.base@,
                tx0.buckets@[d].tree(w0.base@),
                Set::empty(),
                p,
            ) + spare(list0, w0.hwm, p),
    ensures
        stage(tx1, w1, list1, d - 1),
        kept(tx0, tx1, w0, w1, list0, list1),
        need(tx1.buckets@, w1.base@, w0.page_size as int, d) <= need(tx0.buckets@, w0.base@, w0.page_size as int, d),
{
    let bs = tx0.buckets@;
    let cs = tx1.buckets@;
    let b0 = w0.base@;
    let b1 = w1.base@;
    let q = bs[d].parent as int;
    assert(known(bs, d));
    assert(subs_linked(bs, b0, q));
    lemma_closes_linked(bs, b0, cs, b1, d, r, v);
    assert(cs[0].live);
    lemma_closes_contents(bs, b0, cs, b1, d, r, v, 0);
    lemma_backs(tx0.pages, b0, b1);
    bs[q].lemma_items(b0, false);
    lemma_pos(bs[q].items(b0), v.key);
    assert(bucket_at(bs[q].items(b0), bs[q].subbuckets@[r].0@));
    if v.value.len() <= w0.page_size {
        lemma_wide_with(bs[q].items(b0), v, w0.page_size as int);
    }
    assert forall|b: int| #![trigger cs[b]] 0 <= b < cs.len() && cs[b].live implies {
        &&& cs[b].ok(b1, false)
        &&& cs[b].flags() == 0
        &&& wide_fits(cs[b].items(b1), w1.page_size as int)
        &&& b <= d - 1
    } by {
        assert(bs[b].live);
        if b != q {
            lemma_bucket_grows(bs[b], b0, b1, false);
        }
    }
    assert forall|b: int| #![trigger cs[b]] 0 <= b < d && cs[b].live implies {
        &&& bs[b].live
        &&& cs[b].items(b1).len() == bs[b].items(b0).len()
        &&& wide(cs[b].items(b1), w0.page_size as int) <= wide(bs[b].items(b0), w0.page_size as int)
    } by {
        if b != q {
            lemma_bucket_grows(bs[b], b0, b1, false);
        }
    }
    lemma_need_less(bs, b0, cs, b1, w0.page_size as int, d);
    if cs[0].root_node is None {
        lemma_bucket_grows(bs[0], b0, b1, false);
        assert(bs[0].root_node is None);
        assert(cs[0].tree(b1) == bs[0].tree(b0));
    }
    assert forall|p: Pgid| #[trigger]
        total(cs, b1, p) + spare(list1, w1.hwm, p) == total(bs, b0, p) + spare(list0, w0.hwm, p) by {
        lemma_closes_total(bs, b0, cs, b1, d, r, v, p);
        assert(item_refs(b1, v, p) + spare(list1, w1.hwm, p) == claim(b0, bs[d].tree(b0), Set::empty(), p) + spare(
            list0,
            w0.hwm,
            p,
        ));
    }
    assert forall|p: Pgid| #[trigger] total(cs, b1, p) + list_own(b1, p) + spare(list1, w1.hwm, p) <= 1 by {
        assert(total(bs, b0, p) + list_own(b0, p) + spare(list0, w0.hwm, p) <= 1);
        assert(total(cs, b1, p) + spare(list1, w1.hwm, p) == total(bs, b0, p) + spare(list0, w0.hwm, p));
    }
}

/// The bytes that the file has at most, once the first `d` buckets are written.
pub open spec fn top(tx: TxInner, w: Writer, d: int) -> int {
    w.end() + need(tx.buckets@, w.base@, w.page_size as int, d)
}

/// The open buckets of a transaction, with the pages that there are.
pub open spec fn phase(tx: TxInner, w: Writer, pieces: Seq<Seq<InodeV>>) -> Phase {
    Phase { buckets: tx.buckets@, base: w.base@, pieces }
}

/// What follows from closing a bucket that was not changed.
proof fn lemma_closed_unchanged(tx0: TxInner, tx1: TxInner, w: Writer, list: FreelistV, d: int, r: int, v: InodeV, done: Seq<Seq<InodeV>>)
    requires
        stage(tx0, w, list, d),
        went_on(w, w, list, list),
        closes(tx0.buckets@, w.base@, tx1.buckets@, w.base@, d, r, v),
        tx1 == (TxInner { buckets: tx1.buckets, ..tx0 }),
        tx1.buckets@[tx0.buckets@[d].parent as int].items(w.base@)
            == tx0.buckets@[tx0.buckets@[d].parent as int].items(w.base@),
        tx1.buckets@[tx0.buckets@[d].parent as int].flags() == 0,
        at_key(tx0.buckets@[tx0.buckets@[d].parent as int].items(w.base@), v.key) == Some(v),
        with_item(tx0.buckets@[tx0.buckets@[d].parent as int].items(w.base@), v)
            == tx0.buckets@[tx0.buckets@[d].parent as int].items(w.base@),
        tx0.buckets@[d].root_node is None,
        tx1.buckets@[tx0.buckets@[d].parent as int].root_node
            == tx0.buckets@[tx0.buckets@[d].parent as int].root_node,
        v.key == tx0.buckets@[d].name@,
        as_stored(tx0.buckets@[d], v),
        is_bucket(v),
        w.base@.item_ok(v),
    ensures
        stage(tx1, w, list, d - 1),
        kept(tx0, tx1, w, w, list, list),
        closed_one(phase(tx0, w, done), phase(tx1, w, done + bucket_pieces(tx0.buckets@[d], w.page_size as int))),
        top(tx1, w, d) <= top(tx0, w, d + 1),
{
    let bs = tx0.buckets@;
    let b0 = w.base@;
    lemma_unchanged(bs, b0, d, v);
    assert forall|p: Pgid| #[trigger]
        item_refs(b0, v, p) + spare(list, w.hwm, p) == claim(b0, bs[d].tree(b0), Set::empty(), p) + spare(
            list,
            w.hwm,
            p,
        ) by {
        assert(item_refs(b0, v, p) == claim(b0, bs[d].tree(b0), Set::empty(), p));
    }
    lemma_closed(tx0, tx1, w, w, list, list, d, r, v);
    reveal(filed);
    let more = done + bucket_pieces(bs[d], w.page_size as int);
    assert(closed_as(phase(tx0, w, done), phase(tx1, w, more), d, r, v));
    lemma_wide_cost(bs[d].items(b0), w.page_size as int);
}

/// What follows from closing a bucket that was changed.
proof fn lemma_closed_changed(
    tx0: TxInner,
    tx1: TxInner,
    w0: Writer,
    w1: Writer,
    list0: FreelistV,
    list1: FreelistV,
    d: int,
    r: int,
    value: Seq<u8>,
    done: Seq<Seq<InodeV>>,
)
    requires
        stage(tx0, w0, list0, d),
        went_on(w0, w1, list0, list1),
        closes(
            tx0.buckets@,
            w0.base@,
            tx1.buckets@,
            w1.base@,
            d,
            r,
            bucket_item(tx0.buckets@[d].name@, value),
        ),
        tx1 == (TxInner { buckets: tx1.buckets, ..tx0 }),
        tx1.buckets@[tx0.buckets@[d].parent as int].flags() == 0,
        tx1.buckets@[tx0.buckets@[d].parent as int].items(w1.base@) == with_item(
            tx0.buckets@[tx0.buckets@[d].parent as int].items(w0.base@),
            bucket_item(tx0.buckets@[d].name@, value),
        ),
        sealed(
            tx0.buckets@[d].tree(w0.base@),
            tx0.buckets@[d].header.sequence,
            w0,
            w1,
            list0,
            list1,
            tx0.buckets@[d].name@,
            value,
        ),
        tx0.buckets@[d].root_node is Some,
        edits_bucket(
            tx0.buckets@[tx0.buckets@[d].parent as int],
            tx1.buckets@[tx0.buckets@[d].parent as int],
            w1.base@,
            Edit::Put { item: bucket_item(tx0.buckets@[d].name@, value) },
        ),
        filed(tx0.buckets@[d], w1.base@, bucket_item(tx0.buckets@[d].name@, value)),
        w1.end() <= seal_top(tx0.buckets@[d], w0),
    ensures
        stage(tx1, w1, list1, d - 1),
        kept(tx0, tx1, w0, w1, list0, list1),
        closed_one(
            phase(tx0, w0, done),
            phase(tx1, w1, done + bucket_pieces(tx0.buckets@[d], w0.page_size as int)),
        ),
        top(tx1, w1, d) <= top(tx0, w0, d + 1),
{
    let v = bucket_item(tx0.buckets@[d].name@, value);
    lemma_closed_contents(tx0.buckets@, w0.base@, d, false);
    lemma_closed(tx0, tx1, w0, w1, list0, list1, d, r, v);
    let more = done + bucket_pieces(tx0.buckets@[d], w0.page_size as int);
    assert(closed_as(phase(tx0, w0, done), phase(tx1, w1, more), d, r, v));
    lemma_wide_cost(tx0.buckets@[d].items(w0.base@), w0.page_size as int);
}

impl<'a> TxInner<'a> {
    /// Writes the last open bucket and makes it a value in the bucket around it.
    fn spill_bucket(
        &mut self,
        d: BucketId,
        w: &mut Writer,
        fl: &mut Freelist,
        Ghost(done): Ghost<Seq<Seq<InodeV>>>,
    ) -> (r: Result<()>)
        requires
            old(fl).inv(),
            stage(*old(self), *old(w), old(fl)@, d as int),
            0 < d,
            old(self).has(d as int),
        ensures
            final(fl).inv(),
            went_on(*old(w), *final(w), old(fl)@, final(fl)@),
            match r {
                Ok(_) => {
                    &&& stage(*final(self), *final(w), final(fl)@, d - 1)
                    &&& kept(*old(self), *final(self), *old(w), *final(w), old(fl)@, final(fl)@)
                    &&& closed_one(
                        phase(*old(self), *old(w), done),
                        phase(
                            *final(self),
                            *final(w),
                            done + bucket_pieces(old(self).buckets@[d as int], old(w).page_size as int),
                        ),
                    )
                    &&& grew_by(
                        *old(w),
                        *final(w),
                        final(fl)@,
                        bucket_pieces(old(self).buckets@[d as int], old(w).page_size as int),
                    )
                    &&& top(*final(self), *final(w), d as int) <= top(*old(self), *old(w), d + 1)
                },
                Err(e) => {
                    &&& e is MaxSizeReached
                    &&& halted(
                        *old(w),
                        *final(w),
                        final(fl)@,
                        bucket_pieces(old(self).buckets@[d as int], old(w).page_size as int),
                    )
                    &&& stuck(*final(w), final(fl)@, top(*old(self), *old(w), d + 1))
                    &&& *final(self) == (TxInner { buckets: final(self).buckets, ..*old(self) })
                },
            },
    {
        let ghost tx0 = *self;
        let ghost bs = self.buckets@;
        let ghost w0 = *w;
        let ghost b0 = w.base@;
        let ghost list0 = fl@;
        let q: usize = self.buckets[d].parent;
        let name: Vec<u8> = self.buckets[d].name.clone();
        assert(name@ =~= bs[d as int].name@);
        let ghost v0 = at_key(bs[q as int].items(b0), name@)->0;
        let ghost r0 = choose|i: int| 0 <= i < bs[q as int].subbuckets@.len() && (#[trigger] bs[q as int].subbuckets@[i]).1 == d;
        proof {
            assert(known(bs, d as int));
            assert(bs[q as int].subbuckets@[r0].1 == d);
            assert(subs_linked(bs, b0, d as int));
            assert(subs_linked(bs, b0, q as int));
            assert(bs[d as int].subbuckets@.len() == 0) by {
                if bs[d as int].subbuckets@.len() > 0 {
                    let c = bs[d as int].subbuckets@[0].1 as int;
                    assert(bs[c].live);
                }
            }
            lemma_sub_at(bs[q as int].subbuckets@, r0);
            bs[q as int].lemma_items(b0, false);
            lemma_pos(bs[q as int].items(b0), name@);
            let s = bs[q as int].items(b0);
            assert(bucket_at(s, name@));
            assert(b0.item_ok(s[pos(s, name@)]));
            assert(key_ok(s[pos(s, name@)].key, None, None));
            lemma_wide_fits(bs[d as int].items(b0), w.page_size as int);
            lemma_wide_cost(bs[d as int].items(b0), w.page_size as int);
            let t = bs[d as int].tree(b0);
            assert forall|p: Pgid| #[trigger] t.uses(p) + spare(list0, w0.hwm, p) <= 1 by {
                lemma_total_update(bs, d as int, bs[d as int], b0, p);
                assert(total(bs, b0, p) + list_own(b0, p) + spare(list0, w0.hwm, p) <= 1);
            }
        }
        let value: Option<Vec<u8>> = match seal(&mut self.buckets[d], w, fl, Ghost(name@)) {
            Err(e) => {
                proof {
                    lemma_need_first(bs, b0, w0.page_size as int, 0, d as int);
                    lemma_stuck_below(*w, fl@, seal_top(bs[d as int], w0), top(tx0, w0, d + 1));
                }
                return Err(e);
            },
            Ok(value) => value,
        };
        let ghost b1 = w.base@;
        proof {
            lemma_backs(self.pages, b0, b1);
            lemma_bucket_grows(bs[q as int], b0, b1, false);
        }
        let r = self.forget(q, name.as_slice());
        self.buckets[d].live = false;
        proof {
            assert(r@ == r0) by {
                let subs = bs[q as int].subbuckets@;
                if r@ < r0 {
                    assert(subs[r@].0@ != subs[r0].0@);
                } else if r0 < r@ {
                    assert(subs[r0].0@ != subs[r@].0@);
                }
            }
        }
        match value {
            None => {
                proof {
                    let s = bs[q as int].items(b0);
                    assert(with_item(s, v0) =~= s);
                    assert(as_stored(bs[d as int], v0));
                    crate::tree::lemma_alike_same(bs[q as int].tree(b0));
                    assert(closes(bs, b0, self.buckets@, b1, d as int, r0, v0));
                    lemma_closed_unchanged(tx0, *self, w0, list0, d as int, r0, v0, done);
                }
            },
            Some(value) => {
                let ghost v = bucket_item(name@, value@);
                let ghost value0 = value@;
                let item = Inode { flags: BUCKET_LEAF_FLAG, pgid: 0, key: name, value };
                assert(item@ == v);
                let ghost q0 = self.buckets@[q as int];
                self.buckets[q].put(&self.pages, item, w.base, Ghost(false));
                proof {
                    lemma_edits_same(
                        q0,
                        bs[q as int],
                        self.buckets@[q as int],
                        b1,
                        Edit::Put { item: v },
                    );
                    assert(BUCKET_LEAF_FLAG & BUCKET_LEAF_FLAG != 0) by (bit_vector);
                    assert(closes(bs, b0, self.buckets@, b1, d as int, r0, v));
                    lemma_closed_changed(tx0, *self, w0, *w, list0, fl@, d as int, r0, value0, done);
                }
            },
        }
        Ok(())
    }
}

/// Two stages are one.
proof fn lemma_kept(
    tx0: TxInner,
    tx1: TxInner,
    tx2: TxInner,
    w0: Writer,
    w1: Writer,
    w2: Writer,
    a: FreelistV,
    b: FreelistV,
    c: FreelistV,
)
    requires
        kept(tx0, tx1, w0, w1, a, b),
        kept(tx1, tx2, w1, w2, b, c),
    ensures
        kept(tx0, tx2, w0, w2, a, c),
{
    lemma_went_on(w0, w1, w2, a, b, c);
    assert forall|p: Pgid| #[trigger]
        total(tx2.buckets@, w2.base@, p) + spare(c, w2.hwm, p) == total(tx0.buckets@, w0.base@, p) + spare(
            a,
            w0.hwm,
            p,
        ) by {
        assert(total(tx1.buckets@, w1.base@, p) + spare(b, w1.hwm, p) == total(tx0.buckets@, w0.base@, p) + spare(
            a,
            w0.hwm,
            p,
        ));
    }
}

/// Where only the root bucket is open only its pages count.
proof fn lemma_total_root(bs: Seq<BucketInner>, base: Base, p: Pgid)
    requires
        bs.len() > 0,
        forall|b: int| #![trigger bs[b]] 0 < b < bs.len() ==> !bs[b].live,
    ensures
        total(bs, base, p) == bucket_refs(bs[0], base, p),
    decreases bs.len(),
{
    if bs.len() == 1 {
        assert(total(bs.drop_last(), base, p) == 0);
        assert(bs.last() == bs[0]);
    } else {
        assert forall|b: int| #![trigger bs.drop_last()[b]] 0 < b < bs.len() - 1 implies !bs.drop_last()[b].live by {
            assert(bs.drop_last()[b] == bs[b]);
        }
        lemma_total_root(bs.drop_last(), base, p);
        assert(!bs[bs.len() - 1].live);
    }
}

/// While the buckets of phase `x` were written, no pages could be had for a piece of one of them.
#[verifier::opaque]
pub open spec fn halted_from(x: Phase, w0: Writer, w1: Writer, list: FreelistV) -> bool {
    exists|y: Phase, d: int, pieces: Seq<Seq<InodeV>>| #[trigger]
        pieces_from(x, y, d, pieces) && halted(w0, w1, list, pieces)
}

proof fn lemma_halted_from(
    x: Phase,
    y: Phase,
    d: int,
    w0: Writer,
    w1: Writer,
    w2: Writer,
    list1: FreelistV,
    list: FreelistV,
)
    requires
        closed_from(x, y),
        is_next(y.buckets, d),
        w1.page_size == w0.page_size,
        list.free.subset_of(list1.free),
        grew_by(w0, w1, list1, y.pieces),
        halted(w1, w2, list, next_pieces(y, d)),
    ensures
        halted_from(x, w0, w2, list),
{
    reveal(halted_from);
    let none = Seq::<Seq<InodeV>>::empty();
    let more = next_pieces(y, d);
    lemma_halted_later(w0, w1, w2, list1, list, y.pieces, more, none);
    assert(y.pieces + more + none =~= y.pieces + more);
    assert(pieces_from(x, y, d, y.pieces + more));
}

/// Page `root` holds the root bucket as it was, and no page is lost or used twice.
pub open spec fn rooted(
    held: Seq<(Key, Item)>,
    counts: spec_fn(Pgid) -> nat,
    w: Writer,
    list: FreelistV,
    root: Pgid,
) -> bool {
    let t = w.base@.forest[root];
    &&& w.base@.forest.contains_key(root)
    &&& t.wf(None, None, true)
    &&& contents(t) == held
    &&& forall|p: Pgid| #[trigger] t.refs(p) + spare(list, w.hwm, p) == counts(p)
}

/// How often pages are used or at hand.
pub open spec fn counts_of(bs: Seq<BucketInner>, base: Base, list: FreelistV, hwm: Pgid) -> spec_fn(Pgid) -> nat {
    |p: Pgid| total(bs, base, p) + spare(list, hwm, p)
}

impl<'a> TxInner<'a> {
    /// Writes all open buckets but the root bucket.
    fn close_all(&mut self, w: &mut Writer, fl: &mut Freelist) -> (r: Result<Ghost<Seq<Seq<InodeV>>>>)
        requires
            old(fl).inv(),
            stage(*old(self), *old(w), old(fl)@, old(self).buckets@.len() - 1),
        ensures
            final(fl).inv(),
            went_on(*old(w), *final(w), old(fl)@, final(fl)@),
            match r {
                Ok(done) => {
                    &&& stage(*final(self), *final(w), final(fl)@, 0)
                    &&& kept(*old(self), *final(self), *old(w), *final(w), old(fl)@, final(fl)@)
                    &&& closed_from(
                        phase(*old(self), *old(w), Seq::empty()),
                        phase(*final(self), *final(w), done@),
                    )
                    &&& grew_by(*old(w), *final(w), final(fl)@, done@)
                    &&& top(*final(self), *final(w), 1) <= top(*old(self), *old(w), old(self).buckets@.len() as int)
                },
                Err(e) => {
                    &&& e is MaxSizeReached
                    &&& halted_from(
                        phase(*old(self), *old(w), Seq::empty()),
                        *old(w),
                        *final(w),
                        final(fl)@,
                    )
                    &&& stuck(
                        *final(w),
                        final(fl)@,
                        top(*old(self), *old(w), old(self).buckets@.len() as int),
                    )
                    &&& *final(self) == (TxInner { buckets: final(self).buckets, ..*old(self) })
                },
            },
    {
        let ghost tx0 = *self;
        let ghost w0 = *w;
        let ghost list0 = fl@;
        let mut d: usize = self.buckets.len();
        proof {
            lemma_since_same(list0, w0.txid);
            lemma_closed_none(phase(tx0, w0, Seq::empty()));
            lemma_grew_none(w0.hwm as int, w0.page_size as int, list0);
        }
        let ghost mut done = Seq::<Seq<InodeV>>::empty();
        while d > 1
            invariant
                tx0 == *old(self),
                w0 == *old(w),
                list0 == old(fl)@,
                fl.inv(),
                1 <= d <= self.buckets@.len(),
                stage(*self, *w, fl@, d - 1),
                kept(tx0, *self, w0, *w, list0, fl@),
                closed_from(phase(tx0, w0, Seq::empty()), phase(*self, *w, done)),
                grew_by(w0, *w, fl@, done),
                top(*self, *w, d as int) <= top(tx0, w0, tx0.buckets@.len() as int),
            decreases d,
        {
            d = d - 1;
            let ghost tx1 = *self;
            let ghost w1 = *w;
            let ghost list1 = fl@;
            if self.buckets[d].live {
                match self.spill_bucket(d, w, fl, Ghost(done)) {
                    Err(e) => {
                        proof {
                            lemma_went_on(w0, w1, *w, list0, list1, fl@);
                            lemma_halted_from(
                                phase(tx0, w0, Seq::empty()),
                                phase(tx1, w1, done),
                                d as int,
                                w0,
                                w1,
                                *w,
                                list1,
                                fl@,
                            );
                            lemma_stuck_below(
                                *w,
                                fl@,
                                top(tx1, w1, d + 1),
                                top(tx0, w0, tx0.buckets@.len() as int),
                            );
                        }
                        return Err(e);
                    },
                    Ok(_) => {},
                }
                proof {
                    lemma_kept(tx0, tx1, *self, w0, w1, *w, list0, list1, fl@);
                    let more = bucket_pieces(tx1.buckets@[d as int], w1.page_size as int);
                    lemma_closed_more(
                        phase(tx0, w0, Seq::empty()),
                        phase(tx1, w1, done),
                        phase(*self, *w, done + more),
                    );
                    lemma_grew_more(w0, w1, *w, list1, fl@, done, more);
                    done = done + more;
                }
            } else {
                assert(stage(*self, *w, fl@, d - 1)) by {
                    assert forall|b: int| #![trigger self.buckets@[b]] 0 <= b < self.buckets@.len() && self.buckets@[b].live implies b
                        <= d - 1 by {
                        assert(b != d);
                    }
                }
            }
        }
        Ok(Ghost(done))
    }

    /// Writes the root bucket, the only one that is open.
    fn write_root(&mut self, w: &mut Writer, fl: &mut Freelist, Ghost(done): Ghost<Seq<Seq<InodeV>>>) -> (r: Result<
        (),
    >)
        requires
            old(fl).inv(),
            stage(*old(self), *old(w), old(fl)@, 0),
            old(self).buckets@[0].header.root != 0,
        ensures
            final(fl).inv(),
            went_on(*old(w), *final(w), old(fl)@, final(fl)@),
            *final(self) == (TxInner { buckets: final(self).buckets, ..*old(self) }),
            match r {
                Ok(_) => {
                    &&& final(self).buckets@.len() > 0
                    &&& final(self).buckets@[0].header.sequence == old(self).buckets@[0].header.sequence
                    &&& rooted(
                        open_contents(old(self).buckets@, old(w).base@, 0),
                        counts_of(old(self).buckets@, old(w).base@, old(fl)@, old(w).hwm),
                        *final(w),
                        final(fl)@,
                        final(self).buckets@[0].header.root,
                    )
                    &&& root_written(
                        phase(*old(self), *old(w), done),
                        final(w).base@,
                        final(self).buckets@[0].header.root,
                    )
                    &&& grew_by(
                        *old(w),
                        *final(w),
                        final(fl)@,
                        top_pieces(old(self).buckets@[0], old(w).page_size as int),
                    )
                    &&& final(w).end() <= top(*old(self), *old(w), 1)
                },
                Err(e) => {
                    &&& e is MaxSizeReached
                    &&& halted(
                        *old(w),
                        *final(w),
                        final(fl)@,
                        top_pieces(old(self).buckets@[0], old(w).page_size as int),
                    )
                    &&& stuck(*final(w), final(fl)@, top(*old(self), *old(w), 1))
                },
            },
    {
        let ghost bs = self.buckets@;
        let ghost w0 = *w;
        let ghost base = w.base@;
        let ghost list0 = fl@;
        let ghost t = bs[0].tree(base);
        proof {
            lemma_since_same(list0, w0.txid);
            assert(bs[0].live);
            assert(subs_linked(bs, base, 0));
            assert(bs[0].subbuckets@.len() == 0) by {
                if bs[0].subbuckets@.len() > 0 {
                    let c = bs[0].subbuckets@[0].1 as int;
                    assert(bs[c].live);
                }
            }
            lemma_closed_contents(bs, base, 0, false);
            bs[0].lemma_items(base, false);
            assert(bs[0].opened() =~= Set::<Key>::empty());
            assert forall|b: int| #![trigger bs[b]] 0 < b < bs.len() implies !bs[b].live by {
            }
            assert forall|p: Pgid| #[trigger] total(bs, base, p) == claim(base, t, Set::empty(), p) by {
                lemma_total_root(bs, base, p);
            }
            assert forall|p: Pgid| #[trigger] t.uses(p) + spare(list0, w0.hwm, p) <= 1 by {
                assert(total(bs, base, p) == claim(base, t, Set::empty(), p));
                assert(total(bs, base, p) + list_own(base, p) + spare(list0, w0.hwm, p) <= 1);
            }
            lemma_wide_fits(bs[0].items(base), w.page_size as int);
            lemma_wide_cost(bs[0].items(base), w.page_size as int);
            assert(need(bs, base, w.page_size as int, 0) == 0);
            lemma_grew_none(w0.hwm as int, w0.page_size as int, list0);
            assert(top(*self, w0, 1) == w0.end() + wide_cost(bs[0].items(base), w.page_size as int));
        }
        let n: Node = match self.buckets[0].root_node.take() {
            None => {
                proof {
                    assert(base.page_ok(bs[0].header.root));
                    assert forall|p: Pgid| #[trigger]
                        t.refs(p) + spare(list0, w0.hwm, p) == counts_of(bs, base, list0, w0.hwm)(p) by {
                        lemma_claim_all(base, t, p);
                        assert(total(bs, base, p) == claim(base, t, Set::empty(), p));
                    }
                }
                return Ok(());
            },
            Some(n) => *n,
        };
        match spill_root(n, w, fl, self.buckets[0].split_at) {
            Err(e) => {
                proof {
                    lemma_stuck_below(*w, fl@, seal_top(bs[0], w0), top(*old(self), w0, 1));
                }
                Err(e)
            },
            Ok(id) => {
                self.buckets[0].header.root = id;
                proof {
                    lemma_spilled_root(t, w0, *w, list0, fl@, id);
                    assert forall|p: Pgid| #[trigger]
                        w.base@.forest[id].refs(p) + spare(fl@, w.hwm, p) == counts_of(bs, base, list0, w0.hwm)(p) by {
                        assert(total(bs, base, p) == claim(base, t, Set::empty(), p));
                        assert(w.base@.forest[id].refs(p) + spare(fl@, w.hwm, p) == claim(base, t, Set::empty(), p)
                            + spare(list0, w0.hwm, p));
                    }
                }
                Ok(())
            },
        }
    }
}

// ---------------------------------------------------------------------------------------------
// The freelist.

/// The page of the old freelist becomes free with this transaction.
proof fn lemma_list_freed(w: Writer, list1: FreelistV, list2: FreelistV)
    requires
        w.ok(list1),
        ledger(list2, w.base@, w.txid),
        list2.free == list1.free,
        w.base@.list_pgid != 0,
        forall|p: Pgid| #[trigger] listed(list2, p) == listed(list1, p) + list_own(w.base@, p),
        forall|p: Pgid| #[trigger] list_own(w.base@, p) + spare(list1, w.hwm, p) <= 1,
    ensures
        w.ok(list2),
        forall|p: Pgid| #[trigger] spare(list2, w.hwm, p) == spare(list1, w.hwm, p) + list_own(w.base@, p),
{
    assert forall|p: Pgid| #[trigger] spare(list2, w.hwm, p) == spare(list1, w.hwm, p) + list_own(w.base@, p) by {
        assert(listed(list2, p) == listed(list1, p) + list_own(w.base@, p));
    }
    assert forall|p: Pgid| #[trigger] spare(list2, w.hwm, p) <= 1 by {
        assert(list_own(w.base@, p) + spare(list1, w.hwm, p) <= 1);
        assert(spare(list2, w.hwm, p) == spare(list1, w.hwm, p) + list_own(w.base@, p));
    }
}

/// A list has no more pages than lie in front of a limit.
proof fn lemma_list_len(list: FreelistV, limit: Pgid)
    requires
        list.ok(),
        forall|p: Pgid| #[trigger] list.all().contains(p) ==> p < limit,
    ensures
        list.all().len() <= limit,
{
    let s = list.all();
    assert(s =~= list.free.union(list.pending_pages()));
    let r = id_range(0, limit as int);
    lemma_id_range(limit);
    assert(s.subset_of(r));
    vstd::set_lib::lemma_len_subset(s, r);
}

proof fn lemma_id_range(n: Pgid)
    ensures
        id_range(0, n as int).finite(),
        id_range(0, n as int).len() == n,
    decreases n,
{
    let r = id_range(0, n as int);
    if n == 0 {
        assert(r =~= Set::<Pgid>::empty());
    } else {
        let m = (n - 1) as u64;
        lemma_id_range(m);
        assert(r =~= id_range(0, m as int).insert(m));
    }
}

/// The new page of the freelist.
pub open spec fn list_page(list: FreelistV, id: Pgid, page: Seq<u8>) -> bool {
    &&& header_of(page).id == id
    &&& exists|before: Seq<u8>| #[trigger] written_list(list, before, page)
}

impl<'a> TxInner<'a> {
    /// Frees the page of the freelist that was there.
    fn free_list(&self, w: &Writer, fl: &mut Freelist)
        requires
            old(fl).inv(),
            w.ok(old(fl)@),
            w.txid == self.meta.txid,
            self.pages.page_size == w.page_size,
            list_known(self.pages, self.meta, w.base@),
            forall|p: Pgid| #[trigger] list_own(w.base@, p) + spare(old(fl)@, w.hwm, p) <= 1,
        ensures
            final(fl).inv(),
            w.ok(final(fl)@),
            since(old(fl)@, final(fl)@, w.txid),
            forall|p: Pgid| #[trigger]
                spare(final(fl)@, w.hwm, p) == spare(old(fl)@, w.hwm, p) + list_own(w.base@, p),
    {
        let ghost list0 = fl@;
        let ghost base = w.base@;
        proof {
            reveal(list_known);
            lemma_since_same(list0, w.txid);
        }
        if self.meta.freelist != PGID_NO_FREELIST {
            if self.pages.holds(self.meta.freelist) {
                let page: &[u8] = self.pages.page(self.meta.freelist);
                proof {
                    let start = self.meta.freelist * self.pages.page_size;
                    assert(page@.len() >= 16) by {
                        assert((header_of(self.pages.image@.skip(start)).overflow + 1) * self.pages.page_size
                            >= self.pages.page_size) by (nonlinear_arith)
                            requires
                                self.pages.page_size > 0,
                                header_of(self.pages.image@.skip(start)).overflow >= 0,
                        ;
                    }
                    assert forall|p: Pgid| base.list_pgid <= p <= base.list_pgid + base.list_over implies listed(list0, p)
                        == 0 by {
                        assert(list_own(base, p) + spare(list0, w.hwm, p) <= 1);
                    }
                }
                let hdr = PageHeader::read(page);
                free_page(fl, w.txid, self.meta.freelist, hdr.overflow, Ghost(base));
                proof {
                    assert forall|p: Pgid| #[trigger] listed(fl@, p) == listed(list0, p) + list_own(base, p) by {
                    }
                    lemma_list_freed(*w, list0, fl@);
                }
            }
        }
    }
}

/// The number of pages that a freelist takes.
pub open spec fn list_count(list: FreelistV, page_size: int) -> int {
    freelist_size(list.all().len() as int) / page_size + 1
}

/// The number of pages that the freelist of a database with so many pages takes at most.
pub open spec fn list_most(limit: int, page_size: int) -> int {
    freelist_size(limit) / page_size + 1
}

proof fn lemma_list_most(list: FreelistV, limit: int, page_size: int)
    requires
        list.all().len() <= limit,
        page_size > 0,
    ensures
        list_count(list, page_size) <= list_most(limit, page_size),
{
    let a = freelist_size(list.all().len() as int);
    let b = freelist_size(limit);
    assert(a / page_size <= b / page_size) by (nonlinear_arith)
        requires
            a <= b,
            page_size > 0,
    ;
}

proof fn lemma_list_positive(limit: int, page_size: int)
    requires
        0 <= limit,
        page_size > 0,
    ensures
        list_most(limit, page_size) >= 1,
        list_cost(limit, page_size) >= 0,
{
    let a = freelist_size(limit);
    assert(a / page_size >= 0) by (nonlinear_arith)
        requires
            a >= 0,
            page_size > 0,
    ;
}

/// The bytes that the freelist of so many pages takes at most.
pub open spec fn list_cost(limit: int, page_size: int) -> int {
    freelist_size(limit) + page_size
}

/// Writes the freelist to a new page.
fn write_list(w: &mut Writer, fl: &mut Freelist) -> (r: Result<(Pgid, Vec<u8>)>)
    requires
        old(fl).inv(),
        old(w).ok(old(fl)@),
        old(w).base@.limit * 8 + 24 + 2 * old(w).page_size <= usize::MAX,
        old(w).base@.limit <= 0x40_0000_0000,
    ensures
        final(fl).inv(),
        final(w).ok(final(fl)@),
        since(old(fl)@, final(fl)@, old(w).txid),
        final(w).hwm >= old(w).hwm,
        *final(w) == (Writer { hwm: final(w).hwm, dirty: final(w).dirty, ..*old(w) }),
        final(w).dirty@ == old(w).dirty@,
        within_limit(*old(w), *final(w)),
        final(w).hwm == old(w).hwm || grew_list(
            old(w).hwm as int,
            final(w).hwm as int,
            final(fl)@,
            old(w).page_size as int,
        ),
        list_count(old(fl)@, old(w).page_size as int) <= list_most(
            old(w).base@.limit as int,
            old(w).page_size as int,
        ),
        match r {
            Ok((id, page)) => {
                let n = page@.len() / old(w).page_size as nat;
                &&& id > 1
                &&& page@.len() == n * old(w).page_size
                &&& n == header_of(page@).overflow + 1
                &&& n == list_count(old(fl)@, old(w).page_size as int)
                &&& id + n <= final(w).hwm
                &&& list_page(final(fl)@, id, page@)
                &&& forall|p: Pgid| #[trigger]
                    spare(old(fl)@, old(w).hwm, p) == spare(final(fl)@, final(w).hwm, p) + (if id <= p < id + n {
                        1nat
                    } else {
                        0nat
                    })
                &&& forall|p: Pgid| id <= p < id + n ==> !(#[trigger] final(fl)@.free.contains(p))
                &&& forall|q: Pgid, p: Pgid| #[trigger] covers(old(w).base@, q, p) ==> !(id <= p < id + n)
            },
            Err(e) => {
                &&& e is MaxSizeReached
                &&& final(fl)@ == old(fl)@
                &&& final(w).hwm == old(w).hwm
                &&& stuck_at(*final(w), final(fl)@, list_count(final(fl)@, old(w).page_size as int))
                &&& final(w).page_size * (final(w).hwm + list_count(final(fl)@, old(w).page_size as int)) <= old(w).end()
                    + list_cost(old(w).base@.limit as int, old(w).page_size as int)
            },
        },
{
    let ghost w0 = *w;
    let ghost list0 = fl@;
    let ps: usize = w.page_size;
    proof {
        lemma_list_len(list0, w.base@.limit);
    }
    let n: usize = fl.pages_for_write(ps);
    let ghost size = freelist_size(list0.all().len() as int);
    proof {
        assert(n <= 0x1_0000_0000 && n * ps <= size + ps && size < n * ps && n >= 1) by (nonlinear_arith)
            requires
                n == size / ps as int + 1,
                1024 <= ps <= 0x4000_0000,
                0 <= size <= 0x40_0000_0000 * 8 + 24,
        ;
    }
    proof {
        lemma_list_most(list0, w.base@.limit as int, ps as int);
        reveal(in_limit);
    }
    match w.allocate(fl, n) {
        Err(e) => {
            proof {
                assert(ps * (w.hwm + n) <= ps * w.hwm + size + ps) by (nonlinear_arith)
                    requires
                        n * ps <= size + ps,
                ;
            }
            Err(e)
        },
        Ok((id, buf)) => {
            let mut buf: Vec<u8> = buf;
            let ghost b0 = buf@;
            proof {
                assert forall|p: Pgid| #[trigger] fl@.all().contains(p) implies list0.all().contains(p) by {
                    assert(spare(list0, w0.hwm, p) == spare(fl@, w.hwm, p) + (if id <= p < id + n { 1nat } else { 0nat }));
                    assert(spare(list0, w0.hwm, p) <= 1);
                    assert(spare(fl@, w.hwm, p) <= 1);
                    assert(listed(fl@, p) == 1);
                }
                assert(list0.all() =~= list0.free.union(list0.pending_pages()));
                assert(fl@.all() =~= fl@.free.union(fl@.pending_pages()));
                vstd::set_lib::lemma_len_subset(fl@.all(), list0.all());
                assert(b0.len() / ps as nat == n) by (nonlinear_arith)
                    requires
                        b0.len() == n * ps,
                        ps > 0,
                ;
            }
            fl.write_page(&mut buf);
            proof {
                assert(written_list(fl@, b0, buf@));
            }
            Ok((id, buf))
        },
    }
}

// ---------------------------------------------------------------------------------------------
// The commit.

/// The place and the bytes of the new freelist page, where there is one.
pub open spec fn list_view(list: Option<(Pgid, Vec<u8>)>) -> Option<(Pgid, Seq<u8>)> {
    match list {
        Some((id, page)) => Some((id, page@)),
        None => None,
    }
}

/// The place of the new freelist page, or zero.
pub open spec fn list_id(list: Option<(Pgid, Seq<u8>)>) -> Pgid {
    match list {
        Some((id, _)) => id,
        None => 0,
    }
}

/// The number of pages that the new freelist page overflows into.
pub open spec fn list_over(list: Option<(Pgid, Seq<u8>)>) -> u32 {
    match list {
        Some((_, page)) => header_of(page).overflow,
        None => 0,
    }
}

/// The new freelist page is a page of its own.
#[verifier::opaque]
spec fn list_fine(w: Writer, fl: FreelistV, list: Option<(Pgid, Seq<u8>)>) -> bool {
    match list {
        Some((id, page)) => {
            let n = page.len() / w.page_size as nat;
            &&& id > 1
            &&& page.len() == n * w.page_size
            &&& n == header_of(page).overflow + 1
            &&& id + n <= w.hwm
            &&& list_page(fl, id, page)
            &&& forall|p: Pgid| id <= p < id + n ==> !(#[trigger] fl.free.contains(p))
            &&& forall|q: Pgid, p: Pgid| #[trigger] covers(w.base@, q, p) ==> !(id <= p < id + n)
        },
        None => true,
    }
}

/// The number of pages of a new page.
proof fn lemma_page_count(w: Writer, fl: FreelistV, i: int)
    requires
        w.ok(fl),
        0 <= i < w.dirty@.len(),
    ensures
        ({
            let id = w.dirty@[i].0;
            let n = w.dirty@[i].1@.len() as int / w.base@.page_size;
            &&& n == w.base@.forest[id].over() + 1
            &&& w.dirty@[i].1@.len() == n * w.base@.page_size
            &&& id > 1
            &&& id + n <= w.hwm
            &&& forall|p: Pgid| id <= p < id + n <==> #[trigger] covers(w.base@, id, p) && id != w.base@.list_pgid
        }),
{
    let base = w.base@;
    let id = w.dirty@[i].0;
    assert(base.page_ok(id));
    let over = base.forest[id].over();
    let len = w.dirty@[i].1@.len() as int;
    assert(len / base.page_size == over + 1) by (nonlinear_arith)
        requires
            len == (over + 1) * base.page_size,
            base.page_size > 0,
    ;
    let last = (id + over) as u64;
    assert(covers(base, id, last));
}

/// The new pages and those that were there are a database.
proof fn lemma_planned(base0: Base, w: Writer, fl: FreelistV, root: Pgid, list: Option<(Pgid, Seq<u8>)>, plan: CommitPlan)
    requires
        w.ok(fl),
        extends(base0, w.base@),
        base0.ok(),
        forall|q: Pgid| #[trigger] base0.forest.contains_key(q) ==> base0.old.contains(q),
        w.base@.forest.contains_key(root),
        w.base@.forest[root].wf(None, None, true),
        list_fine(w, fl, list),
        plan.base@ == reached(w.base@, root, list_id(list), list_over(list), w.hwm),
        plan.meta.pgid == w.hwm,
        plan.meta.root.root == root,
        plan.meta.freelist == (if list is Some { list_id(list) } else { PGID_NO_FREELIST }),
        match list {
            Some((id, page)) => {
                &&& plan.pages@.len() == w.dirty@.len() + 1
                &&& plan.pages@.drop_last() == w.dirty@
                &&& plan.pages@.last().0 == id
                &&& plan.pages@.last().1@ == page
            },
            None => plan.pages@ == w.dirty@,
        },
    ensures
        planned(base0, plan, fl),
        fenced(plan.base@, fl, w.hwm),
        plan.base@.forest[root] == w.base@.forest[root],
{
    reveal(list_fine);
    let b = w.base@;
    let f = plan.base@;
    let ps = b.page_size;
    let pages = plan.pages@;
    let n = w.dirty@.len() as int;
    assert forall|q: Pgid| #[trigger] b.forest.contains_key(q) implies q + b.forest[q].over() < w.hwm by {
        assert(b.page_ok(q));
        let last = (q + b.forest[q].over()) as u64;
        assert(covers(b, q, last));
    }
    if list is Some {
        let id = list_id(list);
        assert(!b.forest.contains_key(id)) by {
            if b.forest.contains_key(id) {
                assert(covers(b, id, id));
            }
        }
    }
    lemma_reached(b, root, list_id(list), list_over(list), w.hwm);
    assert forall|q: Pgid, p: Pgid| #[trigger] covers(f, q, p) implies (f.forest.contains_key(q) && covers(b, q, p)) || (
    list is Some && q == list_id(list) && q <= p <= q + list_over(list)) by {
        if f.forest.contains_key(q) {
            assert(f.old.contains(q));
        }
    }
    assert(apart(f)) by {
        assert forall|q: Pgid, r: Pgid, p: Pgid| #[trigger] covers(f, q, p) && #[trigger] covers(f, r, p) implies q
            == r by {
        }
    }
    assert forall|i: int| 0 <= i < pages.len() implies {
        let m = (#[trigger] pages[i]).1@.len() as int / ps;
        &&& pages[i].0 > 1
        &&& m >= 1
        &&& pages[i].1@.len() == m * ps
        &&& pages[i].0 + m <= plan.meta.pgid
    } by {
        if i < n {
            assert(pages[i] == w.dirty@[i]);
            lemma_page_count(w, fl, i);
        }
    }
    assert forall|i: int, p: Pgid| 0 <= i < n && #[trigger] on_page(pages, ps, i, p) implies covers(b, pages[i].0, p)
        && b.forest.contains_key(pages[i].0) by {
        assert(pages[i] == w.dirty@[i]);
        lemma_page_count(w, fl, i);
        assert(covers(b, pages[i].0, p));
    }
    assert forall|i: int, j: int, p: Pgid|
        0 <= i < j < pages.len() && #[trigger] on_page(pages, ps, i, p) implies !(#[trigger] on_page(pages, ps, j, p)) by {
        if on_page(pages, ps, j, p) {
            assert(covers(b, pages[i].0, p));
            if j < n {
                assert(covers(b, pages[j].0, p));
                assert(w.dirty@[i].0 != w.dirty@[j].0);
                assert(pages[i] == w.dirty@[i]);
                assert(pages[j] == w.dirty@[j]);
            }
        }
    }
    assert forall|i: int, q: Pgid, p: Pgid|
        0 <= i < pages.len() && #[trigger] covers(base0, q, p) implies !(#[trigger] on_page(pages, ps, i, p)) by {
        assert(covers(b, q, p));
        if i < n && on_page(pages, ps, i, p) {
            assert(covers(b, pages[i].0, p));
            assert(pages[i] == w.dirty@[i]);
            assert(q == w.dirty@[i].0);
            assert(!b.old.contains(w.dirty@[i].0));
        }
    }
    assert forall|q: Pgid| #[trigger] f.old.contains(q) implies page_there(base0, plan, q) by {
        assert(b.forest.contains_key(q));
        if !b.old.contains(q) {
            let i = choose|i: int| 0 <= i < w.dirty@.len() && (#[trigger] w.dirty@[i]).0 == q;
            assert(pages[i] == w.dirty@[i]);
        } else {
            assert(base0.forest.contains_key(q));
        }
    }
    if list is Some {
        assert(pages[n].0 == list_id(list));
        assert(list_there(plan, fl));
    }
}

/// Writes the freelist to a new page, if it is to be stored.
fn renew_list(w: &mut Writer, fl: &mut Freelist, no_freelist_sync: bool) -> (r: Result<Option<(Pgid, Vec<u8>)>>)
    requires
        old(fl).inv(),
        old(w).ok(old(fl)@),
        old(w).base@.limit * 8 + 24 + 2 * old(w).page_size <= usize::MAX,
        old(w).base@.limit <= 0x40_0000_0000,
    ensures
        final(fl).inv(),
        final(w).ok(final(fl)@),
        since(old(fl)@, final(fl)@, old(w).txid),
        *final(w) == (Writer { hwm: final(w).hwm, dirty: final(w).dirty, ..*old(w) }),
        final(w).dirty@ == old(w).dirty@,
        within_limit(*old(w), *final(w)),
        final(w).hwm >= old(w).hwm,
        final(w).hwm == old(w).hwm || !no_freelist_sync && grew_list(
            old(w).hwm as int,
            final(w).hwm as int,
            final(fl)@,
            old(w).page_size as int,
        ),
        match r {
            Ok(list) => {
                &&& no_freelist_sync == (list is None)
                &&& list_fine(*final(w), final(fl)@, list_view(list))
                &&& forall|p: Pgid| #[trigger]
                    spare(old(fl)@, old(w).hwm, p) == spare(final(fl)@, final(w).hwm, p) + list_pages(
                        *final(w),
                        list_view(list),
                        p,
                    )
            },
            Err(e) => {
                let n = list_count(final(fl)@, old(w).page_size as int);
                &&& e is MaxSizeReached
                &&& !no_freelist_sync
                &&& final(w).hwm == old(w).hwm
                &&& n <= list_most(old(w).base@.limit as int, old(w).page_size as int)
                &&& stuck_at(*final(w), final(fl)@, n)
                &&& final(w).page_size * (final(w).hwm + n) <= old(w).end() + list_cost(
                    old(w).base@.limit as int,
                    old(w).page_size as int,
                )
            },
        },
{
    proof {
        lemma_since_same(fl@, w.txid);
        lemma_list_positive(w.base@.limit as int, w.page_size as int);
        reveal(list_fine);
        reveal(in_limit);
    }
    if no_freelist_sync {
        return Ok(None);
    }
    match write_list(w, fl) {
        Err(e) => Err(e),
        Ok(page) => Ok(Some(page)),
    }
}

/// The file has grown for the freelist, because there were not enough free pages in a row.
pub open spec fn grew_list(from: int, to: int, list: FreelistV, page_size: int) -> bool {
    to == from + list_count(list, page_size) && no_run(list, list_count(list, page_size))
}

/// The number of pages that the `k`th piece takes, or after all pieces the freelist.
pub open spec fn wanted(pieces: Seq<Seq<InodeV>>, k: int, list: FreelistV, page_size: int) -> int {
    if k < pieces.len() {
        pages_for(page_len(pieces[k]), page_size)
    } else {
        list_count(list, page_size)
    }
}

impl<'a> TxInner<'a> {
    /// Why a transaction does not commit.
    pub open spec fn commit_refused(&self) -> Option<Error> {
        if self.managed {
            Some(Error::ManagedTx)
        } else {
            self.fixed()
        }
    }

    /// What is to be written has a size that pages and the machine can cope with.
    pub open spec fn sized(&self) -> bool {
        &&& forall|b: int| #[trigger] self.has(b) ==> wide_fits(self.items(b), self.pages.page_size as int)
        &&& self.meta.pgid * 8 + 24 + 2 * self.pages.page_size <= usize::MAX
        &&& self.meta.pgid <= 0x40_0000_0000
    }

    /// The transaction can be written: it has no pages yet, and has a size that can be coped with.
    pub open spec fn ready(&self) -> bool {
        self.sized() && self.base@.limit == self.meta.pgid
    }

    /// The bytes that the file has at most with all new pages.
    pub open spec fn commit_top(&self, no_freelist_sync: bool) -> int {
        let ps = self.pages.page_size as int;
        ps * self.meta.pgid + need(self.buckets@, self.base@, ps, self.buckets@.len() as int) + (if no_freelist_sync {
            0
        } else {
            list_cost(self.meta.pgid as int, ps)
        })
    }

    /// The file could grow by `pages` pages.
    pub open spec fn can_grow(&self, pages: int, max_size: usize) -> bool {
        let end = self.meta.pgid + pages;
        &&& end <= u64::MAX
        &&& max_size > 0 ==> (end + 1) * self.pages.page_size <= max_size
    }

    /// There is room for all new pages behind the last one, so that the free pages do not count. What
    /// is to be written depends on the order in which nodes are rebalanced; there is room in any case
    /// if there is room for what all elements could take.
    #[verifier::opaque]
    pub open spec fn roomy(&self, max_size: usize, no_freelist_sync: bool) -> bool {
        let ps = self.pages.page_size as int;
        ||| forall|pieces: Seq<Seq<InodeV>>| #[trigger]
            to_write(self.buckets@, self.base@, pieces, false) ==> self.can_grow(
                all_pages(pieces, ps) + (if no_freelist_sync { 0 } else { list_most(self.meta.pgid as int, ps) }),
                max_size,
            )
        ||| {
            &&& self.commit_top(no_freelist_sync) <= ps * u64::MAX
            &&& max_size > 0 ==> self.commit_top(no_freelist_sync) + ps <= max_size
        }
    }

    /// There was no room for new pages, with page `hwm` as the next one.
    #[verifier::opaque]
    pub open spec fn no_room(&self, max_size: usize, no_freelist_sync: bool, list: FreelistV, hwm: Pgid) -> bool {
        exists|pieces: Seq<Seq<InodeV>>, k: int| #[trigger]
            self.no_room_for(pieces, k, max_size, no_freelist_sync, list, hwm)
    }

    /// Of the pieces that are to be written, those before the `k`th one were, and for that one there
    /// was no room; or all pieces were written, and there was no room for the freelist. There is no
    /// run of free pages that is long enough, and the file must not grow that much. It has grown only
    /// for pieces for which there were not enough free pages in a row.
    pub open spec fn no_room_for(
        &self,
        pieces: Seq<Seq<InodeV>>,
        k: int,
        max_size: usize,
        no_freelist_sync: bool,
        list: FreelistV,
        hwm: Pgid,
    ) -> bool {
        let ps = self.pages.page_size as int;
        let count = wanted(pieces, k, list, ps);
        &&& 0 <= k <= pieces.len()
        &&& to_write(self.buckets@, self.base@, pieces, k == pieces.len())
        &&& k == pieces.len() ==> !no_freelist_sync
        &&& count >= 1
        &&& forall|s: int| !is_run(list.free, s, count)
        &&& too_big(ps, max_size as int, hwm, count)
        &&& self.meta.pgid <= hwm
        &&& grew(self.meta.pgid as int, hwm as int, ps, list, pieces.take(k))
    }

    /// Page `hwm` is the next one after all pieces, and the freelist if it is stored, were written. The
    /// file has grown only for what there were not enough free pages in a row for, and then it is
    /// still within its limit.
    #[verifier::opaque]
    pub open spec fn grew_to(&self, max_size: usize, no_freelist_sync: bool, list: FreelistV, hwm: Pgid) -> bool {
        let ps = self.pages.page_size as int;
        &&& hwm > self.meta.pgid && max_size > 0 ==> (hwm + 1) * ps <= max_size
        &&& exists|pieces: Seq<Seq<InodeV>>, mid: int| #[trigger]
            grew(self.meta.pgid as int, mid, ps, list, pieces) && to_write(self.buckets@, self.base@, pieces, true) && (
            hwm == mid || !no_freelist_sync && grew_list(mid, hwm as int, list, ps))
    }

    /// What a commit gives: the new meta leads to what the transaction holds, no page is lost and
    /// none is used twice.
    pub open spec fn committed(&self, plan: CommitPlan, list0: FreelistV, list1: FreelistV, no_freelist_sync: bool) -> bool {
        let b = plan.base@;
        let t = b.forest[plan.meta.root.root];
        let ps = self.pages.page_size as int;
        &&& planned(self.base@, plan, list1)
        &&& contents(t) == open_contents(self.buckets@, self.base@, 0)
        &&& plan.meta == (Meta {
            root: InBucket { root: plan.meta.root.root, sequence: self.buckets@[0].header.sequence },
            freelist: plan.meta.freelist,
            pgid: plan.meta.pgid,
            ..self.meta
        })
        &&& plan.meta.pgid >= self.meta.pgid
        &&& written_to(self.buckets@, self.base@, b, plan.meta.root.root)
        &&& forall|p: Pgid| b.old.contains(p) && !self.base@.old.contains(p) ==> #[trigger] trim(b, p)
        &&& no_freelist_sync == (plan.meta.freelist == PGID_NO_FREELIST)
        &&& forall|p: Pgid| #[trigger]
            t.refs(p) + list_own(b, p) + spare(list1, plan.meta.pgid, p) == total(self.buckets@, self.base@, p)
                + list_own(self.base@, p) + spare(list0, self.meta.pgid, p)
        &&& fenced(b, list1, plan.meta.pgid)
        &&& ledger(list1, self.base@, self.meta.txid)
        &&& since(list0, list1, self.meta.txid)
        &&& plan.grow_to == (if plan.meta.pgid > self.meta.pgid {
            Some(((plan.meta.pgid + 1) * ps) as u128)
        } else {
            None
        })
        &&& plan.meta_page@.len() == ps
        &&& is_meta_page_of(plan.meta_page@, plan.meta)
        &&& zero_from(plan.meta_page@, 80)
    }

    /// Turns all that was changed into pages, and gives what is to be written to the file. Neither
    /// the file nor anything that can still be read is touched.
    pub fn commit(&mut self, fl: &mut Freelist, max_size: usize, no_freelist_sync: bool) -> (r: Result<CommitPlan>)
        requires
            old(self).good(),
            old(fl).inv(),
            old(self).commit_refused() is None ==> old(self).sound(old(fl)@) && old(self).ready(),
        ensures
            final(fl).inv(),
            *final(self) == (TxInner { buckets: final(self).buckets, meta: final(self).meta, ..*old(self) }),
            final(self).meta.txid == old(self).meta.txid,
            old(self).commit_refused() is None && old(self).roomy(max_size, no_freelist_sync) ==> r is Ok,
            match old(self).commit_refused() {
                Some(e) => {
                    &&& r == Err::<CommitPlan, Error>(e)
                    &&& *final(self) == *old(self)
                    &&& final(fl)@ == old(fl)@
                },
                None => match r {
                    Ok(plan) => {
                        &&& old(self).committed(plan, old(fl)@, final(fl)@, no_freelist_sync)
                        &&& old(self).grew_to(max_size, no_freelist_sync, final(fl)@, plan.meta.pgid)
                        &&& max_size > 0 && plan.meta.pgid > old(self).meta.pgid ==> (plan.meta.pgid + 1)
                            * old(self).pages.page_size <= max_size
                        &&& final(self).meta == plan.meta
                    },
                    Err(e) => {
                        &&& e is MaxSizeReached
                        &&& old(self).no_room(max_size, no_freelist_sync, final(fl)@, final(self).meta.pgid)
                        &&& final(self).meta == (Meta { pgid: final(self).meta.pgid, ..old(self).meta })
                        &&& ledger(final(fl)@, old(self).base@, old(self).meta.txid)
                        &&& since(old(fl)@, final(fl)@, old(self).meta.txid)
                    },
                },
            },
    {
        if self.managed {
            return Err(Error::ManagedTx);
        }
        if self.closed || !self.opened {
            return Err(Error::TxClosed);
        }
        if !self.writable {
            return Err(Error::TxNotWritable);
        }
        let ghost tx0 = *self;
        let ghost list0 = fl@;
        match self.write_buckets(max_size, no_freelist_sync, fl) {
            Err(e) => Err(e),
            Ok((w, done)) => {
                let r = self.write_rest(w, fl, no_freelist_sync, Ghost(tx0), Ghost(list0), done);
                proof {
                    reveal(TxInner::grew_to);
                }
                r
            },
        }
    }

    /// Writes the freelist, once all buckets are written, and gives what is to be written to the file.
    fn write_rest(
        &mut self,
        w: Writer,
        fl: &mut Freelist,
        no_freelist_sync: bool,
        Ghost(tx0): Ghost<TxInner<'a>>,
        Ghost(list0): Ghost<FreelistV>,
        Ghost(done): Ghost<Seq<Seq<InodeV>>>,
    ) -> (r: Result<CommitPlan>)
        requires
            tx0.good(),
            tx0.ready(),
            *old(self) == (TxInner { buckets: old(self).buckets, ..tx0 }),
            old(fl).inv(),
            since(list0, old(fl)@, tx0.meta.txid),
            to_write(tx0.buckets@, tx0.base@, done, true),
            grew(tx0.meta.pgid as int, w.hwm as int, tx0.pages.page_size as int, old(fl)@, done),
            in_limit(tx0.meta.pgid, w.hwm, tx0.pages.page_size as int, w.max_size as int),
            w.end() <= tx0.commit_top(true),
            laid_out(tx0.buckets@, tx0.base@, w.base@, old(self).buckets@[0].header.root),
            wrote(tx0, *old(self), w, list0, old(fl)@),
        ensures
            final(fl).inv(),
            *final(self) == (TxInner { buckets: final(self).buckets, meta: final(self).meta, ..tx0 }),
            final(self).meta.txid == tx0.meta.txid,
            match r {
                Ok(plan) => {
                    &&& tx0.committed(plan, list0, final(fl)@, no_freelist_sync)
                    &&& tx0.grew_to(w.max_size, no_freelist_sync, final(fl)@, plan.meta.pgid)
                    &&& final(self).meta == plan.meta
                },
                Err(e) => {
                    &&& e is MaxSizeReached
                    &&& !tx0.roomy(w.max_size, no_freelist_sync)
                    &&& tx0.no_room(w.max_size, no_freelist_sync, final(fl)@, final(self).meta.pgid)
                    &&& final(self).meta == (Meta { pgid: final(self).meta.pgid, ..tx0.meta })
                    &&& ledger(final(fl)@, tx0.base@, tx0.meta.txid)
                    &&& since(list0, final(fl)@, tx0.meta.txid)
                },
            },
    {
        let mut w: Writer = w;
        let max_size: usize = w.max_size;
        let ghost w3 = w;
        let ghost list3 = fl@;
        self.free_list(&w, fl);
        let ghost list4 = fl@;
        proof {
            lemma_since(list0, list3, list4, tx0.meta.txid);
        }
        let list: Option<(Pgid, Vec<u8>)> = match renew_list(&mut w, fl, no_freelist_sync) {
            Err(e) => {
                proof {
                    lemma_since(list0, list4, fl@, tx0.meta.txid);
                    lemma_ledger(tx0.base@, w.base@, fl@, tx0.meta.txid);
                    tx0.lemma_no_list(max_size, w3, w, list3, fl@, done);
                }
                self.meta.pgid = w.hwm;
                return Err(e);
            },
            Ok(list) => list,
        };
        let ghost lv = list_view(list);
        let ghost root = self.buckets@[0].header.root;
        proof {
            lemma_since(list0, list4, fl@, tx0.meta.txid);
            lemma_final(&tx0, w3, w, list0, list3, list4, fl@, root, lv);
            tx0.lemma_grew_to(max_size, no_freelist_sync, w3, w, list3, fl@, done);
        }
        Ok(self.finish(w, list, Ghost(tx0), Ghost(list0), Ghost(fl@)))
    }

    /// Writes all open buckets to new pages.
    fn write_buckets(&mut self, max_size: usize, no_freelist_sync: bool, fl: &mut Freelist) -> (r: Result<
        (Writer, Ghost<Seq<Seq<InodeV>>>),
    >)
        requires
            old(self).good(),
            old(fl).inv(),
            old(self).sound(old(fl)@),
            old(self).ready(),
        ensures
            final(fl).inv(),
            *final(self) == (TxInner { buckets: final(self).buckets, meta: final(self).meta, ..*old(self) }),
            since(old(fl)@, final(fl)@, old(self).meta.txid),
            match r {
                Ok((w, done)) => {
                    &&& to_write(old(self).buckets@, old(self).base@, done@, true)
                    &&& grew(
                        old(self).meta.pgid as int,
                        w.hwm as int,
                        old(self).pages.page_size as int,
                        final(fl)@,
                        done@,
                    )
                    &&& in_limit(
                        old(self).meta.pgid,
                        w.hwm,
                        old(self).pages.page_size as int,
                        max_size as int,
                    )
                    &&& w.max_size == max_size
                    &&& final(self).meta == old(self).meta
                    &&& w.end() <= old(self).commit_top(true)
                    &&& laid_out(
                        old(self).buckets@,
                        old(self).base@,
                        w.base@,
                        final(self).buckets@[0].header.root,
                    )
                    &&& wrote(*old(self), *final(self), w, old(fl)@, final(fl)@)
                },
                Err(e) => {
                    &&& e is MaxSizeReached
                    &&& !old(self).roomy(max_size, no_freelist_sync)
                    &&& old(self).no_room(max_size, no_freelist_sync, final(fl)@, final(self).meta.pgid)
                    &&& final(self).meta == (Meta { pgid: final(self).meta.pgid, ..old(self).meta })
                    &&& ledger(final(fl)@, old(self).base@, old(self).meta.txid)
                },
            },
    {
        let ghost tx0 = *self;
        let ghost list0 = fl@;
        self.rebalance_all(fl);
        let ghost tx1 = *self;
        let ghost list1 = fl@;
        let mut w = Writer {
            page_size: self.pages.page_size,
            max_size,
            txid: self.meta.txid,
            hwm: self.meta.pgid,
            dirty: Vec::new(),
            base: self.base,
        };
        let ghost w1 = w;
        proof {
            tx0.lemma_started(&tx1, w1, list0, list1);
            lemma_need_less(
                tx0.buckets@,
                tx0.base@,
                tx1.buckets@,
                tx0.base@,
                w1.page_size as int,
                tx0.buckets@.len() as int,
            );
            assert(top(tx1, w1, tx1.buckets@.len() as int) <= tx0.commit_top(true));
        }
        let ghost x = phase(tx1, w1, Seq::empty());
        assert(all_smoothed(tx0.buckets@, tx1.buckets@, tx0.base@));
        let closed: Ghost<Seq<Seq<InodeV>>> = match self.close_all(&mut w, fl) {
            Err(e) => {
                proof {
                    lemma_since(list0, list1, fl@, tx0.meta.txid);
                    lemma_ledger(tx0.base@, w.base@, fl@, tx0.meta.txid);
                    lemma_stuck_below(w, fl@, top(tx1, w1, tx1.buckets@.len() as int), tx0.commit_top(true));
                    tx0.lemma_no_room(max_size, no_freelist_sync, x, w1, w, fl@);
                }
                self.meta.pgid = w.hwm;
                return Err(e);
            },
            Ok(done) => done,
        };
        let ghost tx2 = *self;
        let ghost list2 = fl@;
        let ghost w2 = w;
        let ghost y = phase(tx2, w2, closed@);
        let ghost done = closed@ + top_pieces(tx2.buckets@[0], w2.page_size as int);
        proof {
            assert(is_next(tx2.buckets@, 0));
            assert(pieces_from(x, y, 0, done));
        }
        match self.write_root(&mut w, fl, closed) {
            Err(e) => {
                proof {
                    lemma_went_on(w1, w2, w, list1, list2, fl@);
                    lemma_since(list0, list1, fl@, tx0.meta.txid);
                    lemma_ledger(tx0.base@, w.base@, fl@, tx0.meta.txid);
                    lemma_stuck_below(w, fl@, top(tx2, w2, 1), tx0.commit_top(true));
                    lemma_halted_from(x, y, 0, w1, w2, w, list2, fl@);
                    tx0.lemma_no_room(max_size, no_freelist_sync, x, w1, w, fl@);
                }
                self.meta.pgid = w.hwm;
                return Err(e);
            },
            Ok(_) => {},
        }
        proof {
            lemma_went_on(w1, w2, w, list1, list2, fl@);
            lemma_since(list0, list1, fl@, tx0.meta.txid);
            assert(closed_from(x, y));
            reveal(to_write);
            reveal(laid_out);
            reveal(in_limit);
            lemma_grew_more(w1, w2, w, list2, fl@, closed@, top_pieces(tx2.buckets@[0], w2.page_size as int));
            tx0.lemma_counts(tx1, tx2, w1, w2, w, list0, list1, list2, fl@, self.buckets@[0].header.root);
            assert(list_known(tx0.pages, tx0.meta, w.base@)) by {
                reveal(list_known);
            }
        }
        Ok((w, Ghost(done)))
    }

    /// Gives what is to be written once all pages are there.
    fn finish(
        &mut self,
        w: Writer,
        list: Option<(Pgid, Vec<u8>)>,
        Ghost(tx0): Ghost<TxInner<'a>>,
        Ghost(list0): Ghost<FreelistV>,
        Ghost(list1): Ghost<FreelistV>,
    ) -> (plan: CommitPlan)
        requires
            tx0.good(),
            *old(self) == (TxInner { buckets: old(self).buckets, ..tx0 }),
            old(self).buckets@.len() > 0,
            old(self).buckets@[0].header.sequence == tx0.buckets@[0].header.sequence,
            w.ok(list1),
            w.page_size == tx0.pages.page_size,
            w.txid == tx0.meta.txid,
            w.hwm >= tx0.meta.pgid,
            extends(tx0.base@, w.base@),
            w.base@.forest.contains_key(old(self).buckets@[0].header.root),
            w.base@.forest[old(self).buckets@[0].header.root].wf(None, None, true),
            contents(w.base@.forest[old(self).buckets@[0].header.root]) == open_contents(tx0.buckets@, tx0.base@, 0),
            list_fine(w, list1, list_view(list)),
            balanced(tx0, w, list0, list1, old(self).buckets@[0].header.root, list_view(list)),
            since(list0, list1, tx0.meta.txid),
            laid_out(tx0.buckets@, tx0.base@, w.base@, old(self).buckets@[0].header.root),
        ensures
            tx0.committed(plan, list0, list1, list is None),
            plan.meta.pgid == w.hwm,
            *final(self) == (TxInner { buckets: final(self).buckets, meta: plan.meta, ..tx0 }),
    {
        proof {
            reveal(list_fine);
        }
        let root: InBucket = self.buckets[0].header;
        let ghost lv = list_view(list);
        let hwm: Pgid = w.hwm;
        let opgid: Pgid = self.meta.pgid;
        self.meta.root = root;
        self.meta.pgid = hwm;
        self.meta.freelist = match &list {
            Some((id, _)) => *id,
            None => PGID_NO_FREELIST,
        };
        proof {
            assert(w.base@.page_ok(root.root));
            assert(covers(w.base@, root.root, root.root));
            lemma_ledger(tx0.base@, w.base@, list1, tx0.meta.txid);
        }
        let mut meta_page: Vec<u8> = vec![0u8; self.pages.page_size];
        write_meta_page(&mut meta_page, &self.meta);
        let grow_to: Option<u128> = if hwm > opgid {
            proof {
                assert((hwm + 1) * self.pages.page_size <= 0x1_0000_0000_0000_0000 * 0x4000_0000) by (nonlinear_arith)
                    requires
                        hwm + 1 <= 0x1_0000_0000_0000_0000,
                        0 <= hwm,
                        0 <= self.pages.page_size <= 0x4000_0000,
                ;
            }
            Some((hwm as u128 + 1) * self.pages.page_size as u128)
        } else {
            None
        };
        let ghost base1 = reached(w.base@, root.root, list_id(lv), list_over(lv), w.hwm);
        let ghost wf = w;
        let mut pages: Vec<(Pgid, Vec<u8>)> = w.dirty;
        match list {
            Some(page) => {
                pages.push(page);
                assert(pages@.drop_last() =~= wf.dirty@);
            },
            None => {},
        }
        let meta: Meta = self.meta.clone();
        let plan = CommitPlan { pages, meta, meta_page, grow_to, base: Ghost(base1) };
        proof {
            lemma_planned(tx0.base@, wf, list1, root.root, lv, plan);
            lemma_balanced(tx0, wf, list0, list1, root.root, lv, plan);
            reveal(written_to);
            assert forall|p: Pgid| base1.old.contains(p) && !tx0.base@.old.contains(p) implies #[trigger]
                trim(base1, p) by {
                assert(page_there(tx0.base@, plan, p));
                assert(trim(wf.base@, p));
            }
        }
        plan
    }

    /// How far the file has grown.
    proof fn lemma_grew_to(
        &self,
        max_size: usize,
        no_freelist_sync: bool,
        w0: Writer,
        w: Writer,
        list0: FreelistV,
        list: FreelistV,
        pieces: Seq<Seq<InodeV>>,
    )
        requires
            to_write(self.buckets@, self.base@, pieces, true),
            grew(self.meta.pgid as int, w0.hwm as int, self.pages.page_size as int, list0, pieces),
            list.free.subset_of(list0.free),
            w0.hwm >= self.meta.pgid,
            in_limit(self.meta.pgid, w0.hwm, self.pages.page_size as int, max_size as int),
            w0.max_size == max_size,
            w0.page_size == self.pages.page_size,
            within_limit(w0, w),
            w.hwm >= w0.hwm,
            w.hwm == w0.hwm || !no_freelist_sync && grew_list(
                w0.hwm as int,
                w.hwm as int,
                list,
                self.pages.page_size as int,
            ),
        ensures
            self.grew_to(max_size, no_freelist_sync, list, w.hwm),
    {
        reveal(in_limit);
        reveal(TxInner::grew_to);
        self.lemma_fewer_free(w0.hwm as int, list0, list, pieces);
    }

    /// What was true of the free pages is true of fewer.
    proof fn lemma_fewer_free(&self, hwm: int, list0: FreelistV, list: FreelistV, pieces: Seq<Seq<InodeV>>)
        requires
            grew(self.meta.pgid as int, hwm, self.pages.page_size as int, list0, pieces),
            list.free.subset_of(list0.free),
        ensures
            grew(self.meta.pgid as int, hwm, self.pages.page_size as int, list, pieces),
    {
        let ps = self.pages.page_size as int;
        let none = Seq::<Seq<InodeV>>::empty();
        lemma_grew_none(hwm, ps, list);
        lemma_grew(self.meta.pgid as int, hwm, hwm, ps, list0, list, pieces, none);
        assert(pieces + none =~= pieces);
    }

    /// Where a piece found no room the file is too small for the transaction.
    proof fn lemma_no_room(
        &self,
        max_size: usize,
        no_freelist_sync: bool,
        x: Phase,
        w0: Writer,
        w: Writer,
        list: FreelistV,
    )
        requires
            halted_from(x, w0, w, list),
            x.base == self.base@,
            x.pieces.len() == 0,
            all_smoothed(self.buckets@, x.buckets, self.base@),
            stuck(w, list, self.commit_top(true)),
            w0.page_size == self.pages.page_size,
            w0.hwm == self.meta.pgid,
            w.page_size == self.pages.page_size,
            w.page_size > 0,
            w.max_size == max_size,
            w.hwm >= self.meta.pgid,
        ensures
            self.no_room(max_size, no_freelist_sync, list, w.hwm),
            !self.roomy(max_size, no_freelist_sync),
    {
        let ps = self.pages.page_size as int;
        reveal(halted_from);
        let (y, d, pieces) = choose|y: Phase, d: int, pieces: Seq<Seq<InodeV>>| #[trigger]
            pieces_from(x, y, d, pieces) && halted(w0, w, list, pieces);
        let k = choose|k: int| #[trigger] halted_at(w0, w, list, pieces, k);
        assert(to_write(self.buckets@, self.base@, pieces, false)) by {
            reveal(to_write);
        }
        assert(self.no_room_for(pieces, k, max_size, no_freelist_sync, list, w.hwm));
        lemma_pages_take(pieces, k, ps);
        lemma_grew_most(self.meta.pgid as int, w.hwm as int, ps, list, pieces.take(k));
        let part = choose|part: Seq<InodeV>| #[trigger] stuck_on(w, list, part, self.commit_top(true));
        let extra = if no_freelist_sync { 0 } else { list_most(self.meta.pgid as int, ps) };
        lemma_list_positive(self.meta.pgid as int, ps);
        reveal(TxInner::roomy);
        reveal(TxInner::no_room);
        self.lemma_not_roomy(
            pages_for(page_len(pieces[k]), ps),
            pages_for(page_len(part), ps),
            all_pages(pieces, ps) + extra,
            self.commit_top(no_freelist_sync),
            max_size,
            w.hwm,
        );
    }

    /// Where so many pages found no room there was too little.
    proof fn lemma_not_roomy(&self, a: int, b: int, pages: int, top: int, max_size: usize, hwm: Pgid)
        requires
            too_big(self.pages.page_size as int, max_size as int, hwm, a),
            too_big(self.pages.page_size as int, max_size as int, hwm, b),
            hwm + a <= self.meta.pgid + pages,
            self.pages.page_size * (hwm + b) <= top,
            self.pages.page_size > 0,
        ensures
            !self.can_grow(pages, max_size),
            !(top <= self.pages.page_size * u64::MAX && (max_size > 0 ==> top + self.pages.page_size <= max_size)),
    {
        let ps = self.pages.page_size as int;
        let end = hwm + b;
        assert((end + 1) * ps == ps * end + ps) by (nonlinear_arith);
        if end > u64::MAX {
            assert(ps * end > ps * u64::MAX) by (nonlinear_arith)
                requires
                    end > u64::MAX,
                    ps > 0,
            ;
        }
        let far = self.meta.pgid + pages;
        assert((hwm + a + 1) * ps <= (far + 1) * ps) by (nonlinear_arith)
            requires
                hwm + a <= far,
                ps > 0,
        ;
    }

    /// Where the freelist found no room the file is too small for the transaction.
    proof fn lemma_no_list(
        &self,
        max_size: usize,
        w0: Writer,
        w: Writer,
        list0: FreelistV,
        list: FreelistV,
        pieces: Seq<Seq<InodeV>>,
    )
        requires
            w0.end() <= self.commit_top(true),
            to_write(self.buckets@, self.base@, pieces, true),
            grew(self.meta.pgid as int, w0.hwm as int, self.pages.page_size as int, list0, pieces),
            list.free.subset_of(list0.free),
            list_count(list, w.page_size as int) <= list_most(self.meta.pgid as int, w.page_size as int),
            w.hwm == w0.hwm,
            w.hwm >= self.meta.pgid,
            w.page_size == w0.page_size,
            w.page_size == self.pages.page_size,
            w.page_size > 0,
            w.max_size == max_size,
            w0.base@.limit == self.meta.pgid,
            stuck_at(w, list, list_count(list, w.page_size as int)),
            w.page_size * (w.hwm + list_count(list, w.page_size as int)) <= w0.end() + list_cost(
                w0.base@.limit as int,
                w.page_size as int,
            ),
        ensures
            self.no_room(max_size, false, list, w.hwm),
            !self.roomy(max_size, false),
    {
        let ps = w.page_size as int;
        let count = list_count(list, ps);
        assert(pieces.take(pieces.len() as int) =~= pieces);
        self.lemma_fewer_free(w0.hwm as int, list0, list, pieces);
        lemma_grew_most(self.meta.pgid as int, w.hwm as int, ps, list, pieces);
        assert(self.no_room_for(pieces, pieces.len() as int, max_size, false, list, w.hwm));
        lemma_to_write(self.buckets@, self.base@, pieces);
        reveal(TxInner::roomy);
        reveal(TxInner::no_room);
        self.lemma_not_roomy(
            count,
            count,
            all_pages(pieces, ps) + list_most(self.meta.pgid as int, ps),
            self.commit_top(false),
            max_size,
            w.hwm,
        );
    }

    /// A transaction whose buckets are rebalanced is ready to be written.
    proof fn lemma_started(&self, after: &Self, w: Writer, list0: FreelistV, list1: FreelistV)
        requires
            self.good(),
            self.sound(list0),
            self.ready(),
            *after == (TxInner { buckets: after.buckets, ..*self }),
            after.buckets@.len() == self.buckets@.len(),
            linked(after.buckets@, self.base@),
            forall|b: int|
                #![trigger after.buckets@[b]]
                0 <= b < self.buckets@.len() ==> same_inside(self.buckets@[b], after.buckets@[b], self.base@),
            forall|b: int| #[trigger]
                after.has(b) ==> after.buckets@[b].ok(self.base@, false) && after.buckets@[b].flags() == 0,
            freed(self.base@, list0, list1, self.meta.txid),
            forall|p: Pgid| #[trigger]
                total(after.buckets@, self.base@, p) + listed(list1, p) == total(self.buckets@, self.base@, p) + listed(
                    list0,
                    p,
                ),
            w.page_size == self.pages.page_size,
            w.txid == self.meta.txid,
            w.hwm == self.meta.pgid,
            w.dirty@.len() == 0,
            w.base == self.base,
        ensures
            stage(*after, w, list1, after.buckets@.len() - 1),
            went_on(w, w, list1, list1),
    {
        let base = self.base@;
        lemma_since_same(list1, w.txid);
        assert forall|p: Pgid| #[trigger]
            total(after.buckets@, base, p) + list_own(base, p) + spare(list1, w.hwm, p) <= 1 by {
            assert(total(self.buckets@, base, p) + list_own(base, p) + spare(list0, self.meta.pgid, p) <= 1);
            assert(total(after.buckets@, base, p) + listed(list1, p) == total(self.buckets@, base, p) + listed(list0, p));
        }
        assert forall|p: Pgid| #[trigger] spare(list1, w.hwm, p) <= 1 by {
            assert(total(after.buckets@, base, p) + list_own(base, p) + spare(list1, w.hwm, p) <= 1);
        }
        assert(w.ok(list1));
        assert forall|b: int| #![trigger after.buckets@[b]] 0 <= b < after.buckets@.len() && after.buckets@[b].live implies {
            &&& after.buckets@[b].ok(base, false)
            &&& after.buckets@[b].flags() == 0
            &&& wide_fits(after.buckets@[b].items(base), w.page_size as int)
            &&& b <= after.buckets@.len() - 1
        } by {
            assert(after.has(b));
            assert(same_inside(self.buckets@[b], after.buckets@[b], base));
            assert(self.has(b));
        }
        assert(same_inside(self.buckets@[0], after.buckets@[0], base));
        assert(self.has(0));
    }

    /// Up to the freelist no page is lost.
    proof fn lemma_counts(
        &self,
        tx1: TxInner,
        tx2: TxInner,
        w1: Writer,
        w2: Writer,
        w3: Writer,
        list0: FreelistV,
        list1: FreelistV,
        list2: FreelistV,
        list3: FreelistV,
        root: Pgid,
    )
        requires
            self.sound(list0),
            w1.base == self.base,
            w1.hwm == self.meta.pgid,
            forall|p: Pgid| #[trigger]
                total(tx1.buckets@, self.base@, p) + listed(list1, p) == total(self.buckets@, self.base@, p) + listed(
                    list0,
                    p,
                ),
            kept(tx1, tx2, w1, w2, list1, list2),
            extends(w1.base@, w3.base@),
            rooted(
                open_contents(tx2.buckets@, w2.base@, 0),
                counts_of(tx2.buckets@, w2.base@, list2, w2.hwm),
                w3,
                list3,
                root,
            ),
        ensures
            forall|p: Pgid| #[trigger]
                w3.base@.forest[root].refs(p) + spare(list3, w3.hwm, p) == total(self.buckets@, self.base@, p) + spare(
                    list0,
                    self.meta.pgid,
                    p,
                ),
            forall|p: Pgid| #[trigger] list_own(w3.base@, p) + spare(list3, w3.hwm, p) <= 1,
    {
        assert forall|p: Pgid| #[trigger]
            w3.base@.forest[root].refs(p) + spare(list3, w3.hwm, p) == total(self.buckets@, self.base@, p) + spare(
                list0,
                self.meta.pgid,
                p,
            ) by {
            assert(w3.base@.forest[root].refs(p) + spare(list3, w3.hwm, p) == counts_of(
                tx2.buckets@,
                w2.base@,
                list2,
                w2.hwm,
            )(p));
            assert(total(tx2.buckets@, w2.base@, p) + spare(list2, w2.hwm, p) == total(tx1.buckets@, w1.base@, p) + spare(
                list1,
                w1.hwm,
                p,
            ));
            assert(total(tx1.buckets@, self.base@, p) + listed(list1, p) == total(self.buckets@, self.base@, p) + listed(
                list0,
                p,
            ));
        }
        assert forall|p: Pgid| #[trigger] list_own(w3.base@, p) + spare(list3, w3.hwm, p) <= 1 by {
            assert(w3.base@.forest[root].refs(p) + spare(list3, w3.hwm, p) == total(self.buckets@, self.base@, p) + spare(
                list0,
                self.meta.pgid,
                p,
            ));
            assert(total(self.buckets@, self.base@, p) + list_own(self.base@, p) + spare(list0, self.meta.pgid, p) <= 1);
        }
    }
}

/// All buckets are written.
pub open spec fn wrote(tx0: TxInner, tx1: TxInner, w: Writer, list0: FreelistV, list1: FreelistV) -> bool {
    let root = tx1.buckets@[0].header.root;
    &&& w.ok(list1)
    &&& w.page_size == tx0.pages.page_size
    &&& w.txid == tx0.meta.txid
    &&& w.hwm >= tx0.meta.pgid
    &&& extends(tx0.base@, w.base@)
    &&& list_known(tx0.pages, tx0.meta, w.base@)
    &&& tx1.buckets@.len() > 0
    &&& tx1.buckets@[0].header.sequence == tx0.buckets@[0].header.sequence
    &&& w.base@.forest.contains_key(root)
    &&& w.base@.forest[root].wf(None, None, true)
    &&& contents(w.base@.forest[root]) == open_contents(tx0.buckets@, tx0.base@, 0)
    &&& forall|p: Pgid| #[trigger]
        w.base@.forest[root].refs(p) + spare(list1, w.hwm, p) == total(tx0.buckets@, tx0.base@, p) + spare(
            list0,
            tx0.meta.pgid,
            p,
        )
    &&& forall|p: Pgid| #[trigger] list_own(w.base@, p) + spare(list1, w.hwm, p) <= 1
}

/// With more pages the freelist is still fine for those that were there.
proof fn lemma_ledger(a: Base, b: Base, list: FreelistV, txid: Txid)
    requires
        ledger(list, b, txid),
        extends(a, b),
    ensures
        ledger(list, a, txid),
{
    assert forall|p: Pgid| #[trigger] list.allocs.contains_key(p) && list.allocs[p] == txid implies !a.there(p) by {
        assert(!b.there(p));
    }
}

/// Whether the new freelist page covers page `p`.
pub open spec fn list_pages(w: Writer, lv: Option<(Pgid, Seq<u8>)>, p: Pgid) -> nat {
    match lv {
        Some((id, page)) => if id <= p < id + page.len() / w.page_size as nat {
            1
        } else {
            0
        },
        None => 0,
    }
}

/// No page is lost.
pub open spec fn balanced(
    tx0: TxInner,
    w: Writer,
    list0: FreelistV,
    list1: FreelistV,
    root: Pgid,
    lv: Option<(Pgid, Seq<u8>)>,
) -> bool {
    forall|p: Pgid| #[trigger]
        w.base@.forest[root].refs(p) + list_pages(w, lv, p) + spare(list1, w.hwm, p) == total(
            tx0.buckets@,
            tx0.base@,
            p,
        ) + list_own(tx0.base@, p) + spare(list0, tx0.meta.pgid, p)
}

/// With the freelist no page is lost.
proof fn lemma_final(
    tx0: &TxInner,
    w3: Writer,
    w: Writer,
    list0: FreelistV,
    list3: FreelistV,
    list4: FreelistV,
    list5: FreelistV,
    root: Pgid,
    lv: Option<(Pgid, Seq<u8>)>,
)
    requires
        w.base == w3.base,
        extends(tx0.base@, w.base@),
        forall|p: Pgid| #[trigger]
            w3.base@.forest[root].refs(p) + spare(list3, w3.hwm, p) == total(tx0.buckets@, tx0.base@, p) + spare(
                list0,
                tx0.meta.pgid,
                p,
            ),
        forall|p: Pgid| #[trigger] spare(list4, w3.hwm, p) == spare(list3, w3.hwm, p) + list_own(w3.base@, p),
        forall|p: Pgid| #[trigger] spare(list4, w3.hwm, p) == spare(list5, w.hwm, p) + list_pages(w, lv, p),
    ensures
        balanced(*tx0, w, list0, list5, root, lv),
{
    assert forall|p: Pgid| #[trigger]
        w.base@.forest[root].refs(p) + list_pages(w, lv, p) + spare(list5, w.hwm, p) == total(
            tx0.buckets@,
            tx0.base@,
            p,
        ) + list_own(tx0.base@, p) + spare(list0, tx0.meta.pgid, p) by {
        assert(w3.base@.forest[root].refs(p) + spare(list3, w3.hwm, p) == total(tx0.buckets@, tx0.base@, p) + spare(
            list0,
            tx0.meta.pgid,
            p,
        ));
        assert(spare(list4, w3.hwm, p) == spare(list3, w3.hwm, p) + list_own(w3.base@, p));
        assert(list_own(tx0.base@, p) == list_own(w3.base@, p));
        assert(spare(list4, w3.hwm, p) == spare(list5, w.hwm, p) + list_pages(w, lv, p));
    }
}

/// The same of the pages that the new meta leads to.
proof fn lemma_balanced(
    tx0: TxInner,
    w: Writer,
    list0: FreelistV,
    list1: FreelistV,
    root: Pgid,
    lv: Option<(Pgid, Seq<u8>)>,
    plan: CommitPlan,
)
    requires
        balanced(tx0, w, list0, list1, root, lv),
        list_fine(w, list1, lv),
        plan.base@ == reached(w.base@, root, list_id(lv), list_over(lv), w.hwm),
        plan.base@.forest[root] == w.base@.forest[root],
        plan.meta.pgid == w.hwm,
    ensures
        forall|p: Pgid| #[trigger]
            plan.base@.forest[root].refs(p) + list_own(plan.base@, p) + spare(list1, plan.meta.pgid, p) == total(
                tx0.buckets@,
                tx0.base@,
                p,
            ) + list_own(tx0.base@, p) + spare(list0, tx0.meta.pgid, p),
{
    reveal(list_fine);
    assert forall|p: Pgid| #[trigger]
        plan.base@.forest[root].refs(p) + list_own(plan.base@, p) + spare(list1, plan.meta.pgid, p) == total(
            tx0.buckets@,
            tx0.base@,
            p,
        ) + list_own(tx0.base@, p) + spare(list0, tx0.meta.pgid, p) by {
        assert(w.base@.forest[root].refs(p) + list_pages(w, lv, p) + spare(list1, w.hwm, p) == total(
            tx0.buckets@,
            tx0.base@,
            p,
        ) + list_own(tx0.base@, p) + spare(list0, tx0.meta.pgid, p));
        assert(list_own(plan.base@, p) == list_pages(w, lv, p));
    }
}

} // verus!
