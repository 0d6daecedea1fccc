//! Deleting nested buckets and moving them.
use vstd::prelude::*;
use crate::bucket::{names, BucketId, BucketInner};
use crate::contents::{item_refs, lemma_nested_none, lemma_nested_same, lemma_nested_with, lemma_nested_without};
use crate::edits::{edits_bucket, lemma_edits_same, Edit};
use crate::error::{Error, Result};
use crate::freelist::{Freelist, FreelistV};
use crate::inode::{decode, Inode, InodeV};
use crate::ledger::{lemma_since, lemma_since_same, listed, since};
use crate::node::Base;
use crate::order::key_equal;
use crate::page::{BUCKET_LEAF_FLAG, InBucket, Pgid, Txid};
use crate::release::{can_free, claim, free_below, free_node, lemma_claim_all};
use crate::tree::{alike, at_key, has_key, is_bucket, key_ok, lemma_alike_uses, lemma_pos, lemma_with_item, lemma_without_key, pos, root_of, with_item, without_key, Key};
use crate::tx::{as_stored, bucket_at, bucket_refs, known, lemma_sub_id, lemma_total_update, linked, list_own, sub_id, subs_linked, total, TxInner};
use crate::writer::spare;

verus! {

/// Bucket `d` is bucket `c` or nested in it, at any depth.
pub open spec fn below(bs: Seq<BucketInner>, c: int, d: int) -> bool
    decreases d,
{
    d == c || c < d && d < bs.len() && bs[d].live && 0 <= bs[d].parent < d && below(bs, c, bs[d].parent as int)
}

/// Bucket `d` once bucket `c` and those below it are gone.
pub open spec fn gone(bs: Seq<BucketInner>, c: int, d: int) -> BucketInner {
    if below(bs, c, d) {
        BucketInner { live: false, ..bs[d] }
    } else {
        bs[d]
    }
}

/// A bucket once the nested bucket of a name is neither in it nor open in it.
pub open spec fn less_one(before: BucketInner, after: BucketInner, name: Key) -> bool {
    &&& after == (BucketInner { root_node: after.root_node, subbuckets: after.subbuckets, ..before })
    &&& forall|k: Key| #[trigger]
        sub_id(after.subbuckets@, k) == (if k == name {
            None
        } else {
            sub_id(before.subbuckets@, k)
        })
}

/// The open bucket of a name once one of the open buckets is forgotten.
proof fn lemma_forgotten(subs: Seq<(Vec<u8>, BucketId)>, r: int, k: Key)
    requires
        0 <= r < subs.len(),
        forall|i: int, j: int| 0 <= i < j < subs.len() ==> (#[trigger] subs[i]).0@ != (#[trigger] subs[j]).0@,
    ensures
        sub_id(subs.remove(r), k) == (if k == subs[r].0@ {
            None
        } else {
            sub_id(subs, k)
        }),
    decreases subs.len(),
{
    let rest = subs.remove(r);
    let n = subs.len() - 1;
    if r == n {
        assert(rest =~= subs.drop_last());
        if k == subs[r].0@ {
            let i = lemma_sub_id(rest, k);
            if sub_id(rest, k) is Some {
                assert(rest[i].0@ == k);
                assert(subs[i].0@ != subs[n].0@);
            }
        }
    } else {
        assert(rest.drop_last() =~= subs.drop_last().remove(r));
        assert(rest.last() == subs.last());
        lemma_forgotten(subs.drop_last(), r, k);
        assert(subs[r].0@ != subs[n].0@);
    }
}

/// How the open buckets look once open bucket `c`, entry `r` of bucket `b`, is taken out.
spec fn cut(bs: Seq<BucketInner>, cs: Seq<BucketInner>, base: Base, b: int, c: int, r: int) -> bool {
    let old = bs[b].subbuckets@;
    &&& linked(bs, base)
    &&& 0 <= b < bs.len()
    &&& bs[b].live
    &&& 0 <= r < old.len()
    &&& old[r].1 == c
    &&& cs.len() == bs.len()
    &&& cs[b].live
    &&& cs[b].subbuckets@ == old.remove(r)
    &&& forall|k: Key|
        k != old[r].0@ ==> #[trigger] at_key(cs[b].items(base), k) == at_key(bs[b].items(base), k)
    &&& cs[b].root_node is Some
    &&& cs[b].parent == bs[b].parent
    &&& cs[b].name == bs[b].name
    &&& forall|d: int| 0 <= d < bs.len() && d != b ==> #[trigger] cs[d] == gone(bs, c, d)
}

proof fn lemma_cut_subs(bs: Seq<BucketInner>, cs: Seq<BucketInner>, base: Base, b: int, c: int, r: int, d: int)
    requires
        cut(bs, cs, base, b, c, r),
        0 <= d < cs.len(),
        cs[d].live,
    ensures
        subs_linked(cs, base, d),
{
    let old = bs[b].subbuckets@;
    assert(subs_linked(bs, base, b));
    assert(bs[c].parent == b);
    assert(bs[c].name@ == old[r].0@);
    assert(!below(bs, c, b));
    assert(bs[d].live);
    assert(!below(bs, c, d));
    assert(subs_linked(bs, base, d));
    let us = bs[d].subbuckets@;
    let vs = cs[d].subbuckets@;
    assert forall|i: int| 0 <= i < vs.len() implies {
        let x = (#[trigger] vs[i]).1;
        &&& d < x < cs.len()
        &&& cs[x as int].live
        &&& cs[x as int].parent == d
        &&& cs[x as int].name@ == vs[i].0@
        &&& bucket_at(cs[d].items(base), vs[i].0@)
        &&& as_stored(cs[x as int], at_key(cs[d].items(base), vs[i].0@)->0)
    } by {
        let j = if d == b && i >= r { i + 1 } else { i };
        assert(vs[i] == us[j]);
        let x = us[j].1 as int;
        assert(bucket_at(bs[d].items(base), us[j].0@));
        assert(bs[x].parent == d);
        assert(bs[x].name@ == us[j].0@);
        if d == b {
            if j < r {
                assert(old[j].0@ != old[r].0@);
            } else {
                assert(old[r].0@ != old[j].0@);
            }
        }
        assert(x != c);
        assert(!below(bs, c, x));
        if x != b {
            assert(cs[x] == gone(bs, c, x));
        }
        if d == b {
            assert(at_key(cs[b].items(base), us[j].0@) == at_key(bs[b].items(base), us[j].0@));
        }
    }
    assert forall|i: int, j: int| 0 <= i < j < vs.len() implies (#[trigger] vs[i]).0@ != (#[trigger] vs[j]).0@ by {
        let i2 = if d == b && i >= r { i + 1 } else { i };
        let j2 = if d == b && j >= r { j + 1 } else { j };
        assert(vs[i] == us[i2]);
        assert(vs[j] == us[j2]);
        assert(us[i2].0@ != us[j2].0@);
    }
}

proof fn lemma_cut_known(bs: Seq<BucketInner>, cs: Seq<BucketInner>, base: Base, b: int, c: int, r: int, x: int)
    requires
        cut(bs, cs, base, b, c, r),
        0 < x < cs.len(),
        cs[x].live,
    ensures
        known(cs, x),
{
    let old = bs[b].subbuckets@;
    assert(subs_linked(bs, base, b));
    assert(bs[c].parent == b);
    assert(!below(bs, c, b));
    assert(bs[x].live);
    assert(!below(bs, c, x));
    assert(known(bs, x));
    let q = bs[x].parent as int;
    assert(cs[x].parent == q);
    assert(!below(bs, c, q));
    let i = choose|i: int| 0 <= i < bs[q].subbuckets@.len() && (#[trigger] bs[q].subbuckets@[i]).1 == x;
    assert(bs[q].subbuckets@[i].1 == x);
    if q == b {
        assert(i != r);
        let j = if i < r { i } else { i - 1 };
        assert(cs[q].subbuckets@[j] == old[i]);
        assert(cs[q].subbuckets@[j].1 == x);
    } else {
        assert(cs[q] == gone(bs, c, q));
        assert(cs[q].subbuckets@[i].1 == x);
    }
}

/// The open buckets still hang together.
proof fn lemma_cut(bs: Seq<BucketInner>, cs: Seq<BucketInner>, base: Base, b: int, c: int, r: int)
    requires
        cut(bs, cs, base, b, c, r),
    ensures
        linked(cs, base),
{
    assert(subs_linked(bs, base, b));
    assert(bs[b].subbuckets@[r].1 == c);
    assert(!below(bs, c, 0));
    assert(cs[0].live);
    assert forall|d: int| #![trigger cs[d]] 0 <= d < cs.len() && cs[d].live implies subs_linked(cs, base, d) by {
        lemma_cut_subs(bs, cs, base, b, c, r, d);
    }
    assert forall|x: int| #![trigger cs[x]] 0 < x < cs.len() && cs[x].live implies known(cs, x) by {
        lemma_cut_known(bs, cs, base, b, c, r, x);
    }
}

/// The names without the one that was taken out.
pub proof fn lemma_cut_names(subs: Seq<(Vec<u8>, BucketId)>, r: int)
    requires
        0 <= r < subs.len(),
        forall|i: int, j: int| 0 <= i < j < subs.len() ==> (#[trigger] subs[i]).0@ != (#[trigger] subs[j]).0@,
    ensures
        names(subs) == names(subs.remove(r)).insert(subs[r].0@),
        !names(subs.remove(r)).contains(subs[r].0@),
{
    let vs = subs.remove(r);
    let k = subs[r].0@;
    if names(vs).contains(k) {
        let i = choose|i: int| 0 <= i < vs.len() && (#[trigger] vs[i]).0@ == k;
        if i < r {
            assert(subs[i].0@ != subs[r].0@);
            assert(vs[i] == subs[i]);
        } else {
            assert(subs[r].0@ != subs[i + 1].0@);
            assert(vs[i] == subs[i + 1]);
        }
    }
    assert forall|x: Key| names(subs).contains(x) <==> names(vs).insert(k).contains(x) by {
        if names(subs).contains(x) && x != k {
            let i = choose|i: int| 0 <= i < subs.len() && (#[trigger] subs[i]).0@ == x;
            let j = if i < r { i } else { i - 1 };
            assert(vs[j] == subs[i]);
            assert(vs[j].0@ == x);
        }
        if names(vs).contains(x) {
            let i = choose|i: int| 0 <= i < vs.len() && (#[trigger] vs[i]).0@ == x;
            let j = if i < r { i } else { i + 1 };
            assert(vs[i] == subs[j]);
            assert(subs[j].0@ == x);
        }
        if x == k {
            assert(subs[r].0@ == k);
        }
    }
    assert(names(subs) =~= names(vs).insert(k));
}

/// What freeing pages does to the freelist.
pub open spec fn freed(base: Base, before: FreelistV, after: FreelistV, txid: Txid) -> bool {
    &&& can_free(base, after, txid)
    &&& since(before, after, txid)
    &&& after.free == before.free
}

impl<'a> TxInner<'a> {
    /// Frees the pages of a bucket and of those nested in it that are not open.
    fn free_bucket(&self, b: BucketId, fl: &mut Freelist)
        requires
            self.base@.ok(),
            self.pages.backs(self.base@),
            self.has(b as int),
            self.buckets@[b as int].ok(self.base@, true),
            old(fl).inv(),
            can_free(self.base@, old(fl)@, self.meta.txid),
            forall|p: Pgid| #[trigger]
                bucket_refs(self.buckets@[b as int], self.base@, p) + listed(old(fl)@, p) <= 1,
        ensures
            final(fl).inv(),
            freed(self.base@, old(fl)@, final(fl)@, self.meta.txid),
            forall|p: Pgid| #[trigger]
                listed(final(fl)@, p) == listed(old(fl)@, p) + bucket_refs(self.buckets@[b as int], self.base@, p),
    {
        let ghost base = self.base@;
        let ghost list0 = fl@;
        let bucket = &self.buckets[b];
        let subs = bucket.subbuckets.as_slice();
        proof {
            assert forall|p: Pgid| #[trigger]
                claim(base, bucket.tree(base), names(subs@), p) + listed(list0, p) <= 1 by {
                assert(bucket_refs(self.buckets@[b as int], base, p) + listed(list0, p) <= 1);
            }
            lemma_since_same(list0, self.meta.txid);
        }
        match &bucket.root_node {
            Some(n) => {
                free_node(&self.pages, fl, self.meta.txid, n, subs, self.base);
            },
            None => {
                if bucket.header.root != 0 {
                    free_below(&self.pages, fl, self.meta.txid, bucket.header.root, subs, self.base);
                } else {
                    proof {
                        let page = bucket.inline_page->0@;
                        assert forall|p: Pgid| #[trigger] bucket_refs(self.buckets@[b as int], base, p) == 0 by {
                            lemma_nested_none(base, decode(page), names(subs@), p);
                        }
                    }
                }
            },
        }
        proof {
            assert forall|p: Pgid| #[trigger]
                listed(fl@, p) == listed(list0, p) + bucket_refs(self.buckets@[b as int], base, p) by {
                assert(bucket_refs(self.buckets@[b as int], base, p) == claim(base, bucket.tree(base), names(subs@), p));
            }
        }
    }

    /// Which buckets are bucket `c` or nested in it.
    fn descendants(&self, c: BucketId) -> (v: Vec<bool>)
        requires
            c < self.buckets@.len(),
        ensures
            v@.len() == self.buckets@.len(),
            forall|d: int| 0 <= d < v@.len() ==> #[trigger] v@[d] == below(self.buckets@, c as int, d),
    {
        let mut v: Vec<bool> = Vec::new();
        let mut d: usize = 0;
        while d < self.buckets.len()
            invariant
                c < self.buckets@.len(),
                d <= self.buckets@.len(),
                v@.len() == d,
                forall|e: int| 0 <= e < d ==> #[trigger] v@[e] == below(self.buckets@, c as int, e),
            decreases self.buckets@.len() - d,
        {
            let bucket = &self.buckets[d];
            let r: bool = d == c || c < d && bucket.live && bucket.parent < d && v[bucket.parent];
            v.push(r);
            d = d + 1;
        }
        v
    }

    /// Frees the pages of bucket `c` and of all nested in it, which are then gone.
    fn free_open(&mut self, c: BucketId, fl: &mut Freelist)
        requires
            old(self).good(),
            old(self).has(c as int),
            old(fl).inv(),
            old(self).sound(old(fl)@),
        ensures
            *final(self) == (TxInner { buckets: final(self).buckets, ..*old(self) }),
            final(self).buckets@.len() == old(self).buckets@.len(),
            forall|d: int|
                0 <= d < old(self).buckets@.len() ==> #[trigger] final(self).buckets@[d] == gone(
                    old(self).buckets@,
                    c as int,
                    d,
                ),
            final(fl).inv(),
            freed(old(self).base@, old(fl)@, final(fl)@, old(self).meta.txid),
            forall|p: Pgid| #[trigger]
                total(final(self).buckets@, old(self).base@, p) + listed(final(fl)@, p) == total(
                    old(self).buckets@,
                    old(self).base@,
                    p,
                ) + listed(old(fl)@, p),
    {
        let ghost bs = self.buckets@;
        let ghost base = self.base@;
        let ghost list0 = fl@;
        let ghost t0 = *self;
        let below_c: Vec<bool> = self.descendants(c);
        let n: usize = self.buckets.len();
        let mut d: usize = 0;
        proof {
            lemma_since_same(list0, self.meta.txid);
        }
        while d < n
            invariant
                t0 == *old(self),
                t0.good(),
                t0.has(c as int),
                bs == t0.buckets@,
                base == t0.base@,
                list0 == old(fl)@,
                t0.sound(list0),
                *self == (TxInner { buckets: self.buckets, ..t0 }),
                n == bs.len(),
                self.buckets@.len() == n,
                below_c@.len() == n,
                forall|e: int| 0 <= e < n ==> #[trigger] below_c@[e] == below(bs, c as int, e),
                d <= n,
                forall|e: int|
                    0 <= e < n ==> #[trigger] self.buckets@[e] == (if e < d {
                        gone(bs, c as int, e)
                    } else {
                        bs[e]
                    }),
                fl.inv(),
                freed(base, list0, fl@, t0.meta.txid),
                forall|p: Pgid| #[trigger]
                    total(self.buckets@, base, p) + listed(fl@, p) == total(bs, base, p) + listed(list0, p),
            decreases n - d,
        {
            if below_c[d] {
                let ghost list1 = fl@;
                let ghost cs = self.buckets@;
                let ghost b0 = cs[d as int];
                proof {
                    assert(b0 == bs[d as int]);
                    assert(t0.has(d as int));
                    assert forall|p: Pgid| #[trigger] bucket_refs(b0, base, p) + listed(list1, p) <= 1 by {
                        lemma_total_update(cs, d as int, b0, base, p);
                        assert(total(cs, base, p) + listed(list1, p) == total(bs, base, p) + listed(list0, p));
                        assert(total(bs, base, p) + list_own(base, p) + spare(list0, t0.meta.pgid, p) <= 1);
                    }
                }
                self.free_bucket(d, fl);
                self.buckets[d].live = false;
                proof {
                    let b1 = self.buckets@[d as int];
                    assert(self.buckets@ =~= cs.update(d as int, b1));
                    assert forall|p: Pgid| #[trigger]
                        total(self.buckets@, base, p) + listed(fl@, p) == total(bs, base, p) + listed(list0, p) by {
                        lemma_total_update(cs, d as int, b1, base, p);
                        assert(bucket_refs(b1, base, p) == 0);
                        assert(listed(fl@, p) == listed(list1, p) + bucket_refs(b0, base, p));
                        assert(total(cs, base, p) + listed(list1, p) == total(bs, base, p) + listed(list0, p));
                    }
                    lemma_since(list0, list1, fl@, t0.meta.txid);
                }
            }
            d = d + 1;
        }
    }

    /// Why a nested bucket is not deleted.
    pub open spec fn delete_bucket_refused(&self, b: int, name: Key) -> Option<Error> {
        if self.fixed() is Some {
            self.fixed()
        } else if at_key(self.items(b), name) is None {
            Some(Error::BucketNotFound)
        } else if !bucket_at(self.items(b), name) {
            Some(Error::IncompatibleValue)
        } else {
            None
        }
    }

    /// Forgets the open nested bucket of a name.
    pub fn forget(&mut self, b: BucketId, name: &[u8]) -> (r: Ghost<int>)
        requires
            b < old(self).buckets@.len(),
            sub_id(old(self).buckets@[b as int].subbuckets@, name@) is Some,
        ensures
            *final(self) == (TxInner { buckets: final(self).buckets, ..*old(self) }),
            final(self).buckets@.len() == old(self).buckets@.len(),
            forall|d: int|
                0 <= d < old(self).buckets@.len() && d != b ==> #[trigger] final(self).buckets@[d]
                    == old(self).buckets@[d],
            final(self).buckets@[b as int] == (BucketInner {
                subbuckets: final(self).buckets@[b as int].subbuckets,
                ..old(self).buckets@[b as int]
            }),
            0 <= r@ < old(self).buckets@[b as int].subbuckets@.len(),
            old(self).buckets@[b as int].subbuckets@[r@].0@ == name@,
            sub_id(old(self).buckets@[b as int].subbuckets@, name@) == Some(
                old(self).buckets@[b as int].subbuckets@[r@].1,
            ),
            final(self).buckets@[b as int].subbuckets@ == old(self).buckets@[b as int].subbuckets@.remove(r@),
    {
        let ghost before = *self;
        let ghost subs = self.buckets@[b as int].subbuckets@;
        let mut i: usize = self.buckets[b].subbuckets.len();
        assert(subs.take(i as int) =~= subs);
        while i > 0
            invariant
                before == *old(self),
                *self == before,
                b < self.buckets@.len(),
                subs == self.buckets@[b as int].subbuckets@,
                i <= subs.len(),
                sub_id(subs.take(i as int), name@) == sub_id(subs, name@),
                sub_id(subs, name@) is Some,
            decreases i,
        {
            i = i - 1;
            assert(subs.take(i + 1).drop_last() =~= subs.take(i as int));
            if key_equal(self.buckets[b].subbuckets[i].0.as_slice(), name) {
                let removed = self.buckets[b].subbuckets.remove(i);
                return Ghost(i as int);
            }
        }
        Ghost(0)
    }

    /// The freed pages leave everything consistent.
    proof fn lemma_freed(before: &Self, after: &Self, list0: FreelistV, list1: FreelistV)
        requires
            before.sound(list0),
            after.base == before.base,
            after.meta == before.meta,
            freed(before.base@, list0, list1, before.meta.txid),
            forall|p: Pgid| #[trigger]
                total(after.buckets@, before.base@, p) + listed(list1, p) == total(before.buckets@, before.base@, p)
                    + listed(list0, p),
        ensures
            after.sound(list1),
            before.full(list0) ==> after.full(list1),
    {
        if before.full(list0) {
            assert forall|p: Pgid| #[trigger]
                total(after.buckets@, after.base@, p) + list_own(after.base@, p) + spare(list1, after.meta.pgid, p) == (
                if p <= 1 {
                    0nat
                } else {
                    1nat
                }) by {
                assert(total(before.buckets@, before.base@, p) + list_own(before.base@, p) + spare(
                    list0,
                    before.meta.pgid,
                    p,
                ) == (if p <= 1 {
                    0nat
                } else {
                    1nat
                }));
                assert(total(after.buckets@, before.base@, p) + listed(list1, p) == total(
                    before.buckets@,
                    before.base@,
                    p,
                ) + listed(list0, p));
            }
        }
        assert forall|p: Pgid| #[trigger]
            total(after.buckets@, after.base@, p) + list_own(after.base@, p) + spare(list1, after.meta.pgid, p) <= 1 by {
            assert(total(before.buckets@, before.base@, p) + list_own(before.base@, p) + spare(
                list0,
                before.meta.pgid,
                p,
            ) <= 1);
            assert(total(after.buckets@, before.base@, p) + listed(list1, p) == total(before.buckets@, before.base@, p)
                + listed(list0, p));
        }
    }

    /// Bucket `b` without the nested bucket of a name.
    pub open spec fn bucket_deleted(&self, after: &Self, b: int, name: Key) -> bool {
        let c = sub_id(self.buckets@[b].subbuckets@, name);
        &&& *after == (TxInner { buckets: after.buckets, ..*self })
        &&& after.buckets@.len() == self.buckets@.len()
        &&& after.items(b) == without_key(self.items(b), name)
        &&& less_one(self.buckets@[b], after.buckets@[b], name)
        &&& after.has(b)
        &&& forall|d: int|
            0 <= d < self.buckets@.len() && d != b ==> #[trigger] after.buckets@[d] == (match c {
                Some(c) => gone(self.buckets@, c as int, d),
                None => self.buckets@[d],
            })
    }

    /// Deletes a nested bucket with all that is in it.
    pub fn delete_bucket(&mut self, b: BucketId, name: &[u8], fl: &mut Freelist) -> (r: Result<()>)
        requires
            old(self).good(),
            old(self).has(b as int),
            old(fl).inv(),
            old(self).fixed() is None ==> old(self).sound(old(fl)@),
        ensures
            final(self).good(),
            final(fl).inv(),
            match old(self).delete_bucket_refused(b as int, name@) {
                Some(e) => {
                    &&& r == Err::<(), Error>(e)
                    &&& *final(self) == *old(self)
                    &&& final(fl)@ == old(fl)@
                },
                None => {
                    &&& r is Ok
                    &&& final(self).sound(final(fl)@)
                    &&& old(self).full(old(fl)@) ==> final(self).full(final(fl)@)
                    &&& old(self).bucket_deleted(final(self), b as int, name@)
                    &&& edits_bucket(
                        old(self).buckets@[b as int],
                        final(self).buckets@[b as int],
                        old(self).base@,
                        Edit::Del { key: name@ },
                    )
                    &&& freed(old(self).base@, old(fl)@, final(fl)@, old(self).meta.txid)
                    &&& forall|p: Pgid| #[trigger]
                        total(final(self).buckets@, old(self).base@, p) + listed(final(fl)@, p) == total(
                            old(self).buckets@,
                            old(self).base@,
                            p,
                        ) + listed(old(fl)@, p)
                },
            },
    {
        if self.closed || !self.opened {
            return Err(Error::TxClosed);
        }
        if !self.writable {
            return Err(Error::TxNotWritable);
        }
        let item: Inode = match self.buckets[b].find(&self.pages, name, self.base, Ghost(true)) {
            Some(item) => item,
            None => {
                return Err(Error::BucketNotFound);
            },
        };
        if item.flags & BUCKET_LEAF_FLAG == 0 {
            return Err(Error::IncompatibleValue);
        }
        let ghost before = *self;
        let ghost base = self.base@;
        let ghost list0 = fl@;
        let ghost bs = self.buckets@;
        let ghost s = self.items(b as int);
        proof {
            bs[b as int].lemma_items(base, true);
            lemma_pos(s, name@);
            assert(base.item_ok(s[pos(s, name@)]));
            lemma_without_key(s, name@);
            assert(subs_linked(bs, base, b as int));
            let i = lemma_sub_id(bs[b as int].subbuckets@, name@);
        }
        match self.find_open(b, name) {
            Some(c) => {
                proof {
                    let i = lemma_sub_id(bs[b as int].subbuckets@, name@);
                    assert(bs[b as int].subbuckets@[i].1 == c);
                }
                self.free_open(c, fl);
                let ghost mid = *self;
                assert(!below(bs, c as int, b as int));
                let r = self.forget(b, name);
                let ghost b0 = self.buckets@[b as int];
                self.buckets[b].del(&self.pages, name, self.base);
                proof {
                    lemma_edits_same(b0, bs[b as int], self.buckets@[b as int], base, Edit::Del { key: name@ });
                    before.lemma_taken_open(&mid, &*self, b as int, name@, c as int, r@);
                    assert forall|k: Key| #[trigger] sub_id(self.buckets@[b as int].subbuckets@, k) == (if k == name@ {
                        None
                    } else {
                        sub_id(bs[b as int].subbuckets@, k)
                    }) by {
                        lemma_forgotten(bs[b as int].subbuckets@, r@, k);
                    }
                    assert forall|p: Pgid| #[trigger]
                        total(self.buckets@, base, p) + listed(fl@, p) == total(bs, base, p) + listed(list0, p) by {
                        assert(total(mid.buckets@, base, p) + listed(fl@, p) == total(bs, base, p) + listed(list0, p));
                        assert(total(self.buckets@, base, p) == total(mid.buckets@, base, p));
                    }
                    Self::lemma_freed(&before, &*self, list0, fl@);
                }
            },
            None => {
                let header = InBucket::read(item.value.as_slice());
                let none: Vec<(Vec<u8>, BucketId)> = Vec::new();
                proof {
                    assert(header.root == root_of(item@));
                    lemma_since_same(list0, self.meta.txid);
                    assert(names(none@) =~= Set::<Key>::empty());
                    if header.root != 0 {
                        let u = base.forest[header.root];
                        assert(base.page_ok(header.root));
                        assert forall|p: Pgid| #[trigger] claim(base, u, names(none@), p) + listed(list0, p) <= 1 by {
                            lemma_claim_all(base, u, p);
                            before.lemma_item_counts(b as int, name@, p);
                            assert(total(bs, base, p) + list_own(base, p) + spare(list0, before.meta.pgid, p) <= 1);
                        }
                    }
                }
                if header.root != 0 {
                    free_below(&self.pages, fl, self.meta.txid, header.root, none.as_slice(), self.base);
                }
                proof {
                    assert forall|p: Pgid| #[trigger]
                        listed(fl@, p) == listed(list0, p) + item_refs(base, item@, p) by {
                        if header.root != 0 {
                            lemma_claim_all(base, base.forest[header.root], p);
                        }
                    }
                }
                self.buckets[b].del(&self.pages, name, self.base);
                proof {
                    before.lemma_taken_unopened(&*self, b as int, name@);
                    assert forall|p: Pgid| #[trigger]
                        total(self.buckets@, base, p) + listed(fl@, p) == total(bs, base, p) + listed(list0, p) by {
                        assert(listed(fl@, p) == listed(list0, p) + item_refs(base, item@, p));
                        assert(total(self.buckets@, base, p) + item_refs(base, at_key(s, name@)->0, p) == total(
                            bs,
                            base,
                            p,
                        ));
                    }
                    Self::lemma_freed(&before, &*self, list0, fl@);
                }
            },
        }
        Ok(())
    }

    /// The pages of a nested bucket that is not open are counted.
    proof fn lemma_item_counts(&self, b: int, name: Key, p: Pgid)
        requires
            self.good(),
            self.has(b),
            bucket_at(self.items(b), name),
            sub_id(self.buckets@[b].subbuckets@, name) is None,
        ensures
            item_refs(self.base@, at_key(self.items(b), name)->0, p) <= total(self.buckets@, self.base@, p),
    {
        let base = self.base@;
        let bs = self.buckets@;
        let s = self.items(b);
        bs[b].lemma_items(base, true);
        let i = lemma_sub_id(bs[b].subbuckets@, name);
        assert(!bs[b].opened().contains(name));
        lemma_nested_without(base, s, name, bs[b].opened(), p);
        lemma_total_update(bs, b, bs[b], base, p);
    }

    /// A nested bucket that is not open is taken out.
    proof fn lemma_taken_unopened(&self, after: &Self, b: int, name: Key)
        requires
            self.good(),
            self.has(b),
            bucket_at(self.items(b), name),
            sub_id(self.buckets@[b].subbuckets@, name) is None,
            after.same_but(self, b),
            after.buckets@[b].same_but_root(self.buckets@[b]),
            after.buckets@[b].ok(self.base@, true),
            after.buckets@[b].root_node is Some,
            after.items(b) == without_key(self.items(b), name),
            alike(self.buckets@[b].tree(self.base@), after.buckets@[b].tree(self.base@)),
        ensures
            after.good(),
            forall|p: Pgid| #[trigger]
                total(after.buckets@, self.base@, p) + item_refs(self.base@, at_key(self.items(b), name)->0, p) == total(
                    self.buckets@,
                    self.base@,
                    p,
                ),
    {
        let base = self.base@;
        let bs = self.buckets@;
        let cs = after.buckets@;
        let s = self.items(b);
        bs[b].lemma_items(base, true);
        lemma_without_key(s, name);
        let i0 = lemma_sub_id(bs[b].subbuckets@, name);
        assert(cs =~= bs.update(b, cs[b]));
        assert forall|c: int| #[trigger] after.has(c) implies cs[c].ok(base, true) by {
            assert(self.has(c));
        }
        assert forall|d: int| #![trigger cs[d]] 0 <= d < cs.len() && cs[d].live implies subs_linked(cs, base, d) by {
            assert(bs[d].live);
            assert(subs_linked(bs, base, d));
            assert forall|i: int| 0 <= i < cs[d].subbuckets@.len() implies {
                let c = (#[trigger] cs[d].subbuckets@[i]).1;
                &&& d < c < cs.len()
                &&& cs[c as int].live
                &&& cs[c as int].parent == d
                &&& cs[c as int].name@ == cs[d].subbuckets@[i].0@
                &&& bucket_at(cs[d].items(base), cs[d].subbuckets@[i].0@)
                &&& as_stored(cs[c as int], at_key(cs[d].items(base), cs[d].subbuckets@[i].0@)->0)
            } by {
                let k = bs[d].subbuckets@[i].0@;
                assert(bucket_at(bs[d].items(base), k));
                if d == b {
                    assert(at_key(without_key(s, name), k) == at_key(s, k));
                }
            }
        }
        assert forall|c: int| #![trigger cs[c]] 0 < c < cs.len() && cs[c].live implies known(cs, c) by {
            assert(bs[c].live);
            assert(known(bs, c));
            let q = bs[c].parent as int;
            let i = choose|i: int| 0 <= i < bs[q].subbuckets@.len() && (#[trigger] bs[q].subbuckets@[i]).1 == c;
            assert(cs[q].subbuckets@[i].1 == c);
        }
        lemma_alike_uses(bs[b].tree(base), cs[b].tree(base));
        assert(!bs[b].opened().contains(name));
        assert forall|p: Pgid| #[trigger]
            total(cs, base, p) + item_refs(base, at_key(s, name)->0, p) == total(bs, base, p) by {
            lemma_total_update(bs, b, cs[b], base, p);
            lemma_nested_without(base, s, name, bs[b].opened(), p);
            assert(bs[b].tree(base).uses(p) == cs[b].tree(base).uses(p));
        }
    }

    /// A nested bucket that is open is taken out.
    proof fn lemma_taken_open(&self, mid: &Self, after: &Self, b: int, name: Key, c: int, r: int)
        requires
            self.good(),
            self.has(b),
            bucket_at(self.items(b), name),
            mid.buckets@.len() == self.buckets@.len(),
            *mid == (TxInner { buckets: mid.buckets, ..*self }),
            forall|d: int|
                0 <= d < self.buckets@.len() ==> #[trigger] mid.buckets@[d] == gone(self.buckets@, c, d),
            0 <= r < self.buckets@[b].subbuckets@.len(),
            self.buckets@[b].subbuckets@[r].0@ == name,
            self.buckets@[b].subbuckets@[r].1 == c,
            after.same_but(mid, b),
            after.buckets@[b] == (BucketInner {
                root_node: after.buckets@[b].root_node,
                subbuckets: after.buckets@[b].subbuckets,
                ..self.buckets@[b]
            }),
            after.buckets@[b].subbuckets@ == self.buckets@[b].subbuckets@.remove(r),
            after.buckets@[b].ok(self.base@, true),
            after.buckets@[b].root_node is Some,
            after.items(b) == without_key(self.items(b), name),
            alike(self.buckets@[b].tree(self.base@), after.buckets@[b].tree(self.base@)),
        ensures
            after.good(),
            forall|p: Pgid| #[trigger]
                total(after.buckets@, self.base@, p) == total(mid.buckets@, self.base@, p),
    {
        let base = self.base@;
        let bs = self.buckets@;
        let ms = mid.buckets@;
        let cs = after.buckets@;
        let s = self.items(b);
        assert(subs_linked(bs, base, b));
        assert(bs[c].parent == b);
        assert(!below(bs, c, b));
        bs[b].lemma_items(base, true);
        lemma_without_key(s, name);
        lemma_cut_names(bs[b].subbuckets@, r);
        assert forall|k: Key| k != name implies #[trigger] at_key(cs[b].items(base), k) == at_key(bs[b].items(base), k) by {
            assert(at_key(without_key(s, name), k) == at_key(s, k));
        }
        assert forall|d: int| 0 <= d < bs.len() && d != b implies #[trigger] cs[d] == gone(bs, c, d) by {
            assert(cs[d] == ms[d]);
        }
        lemma_cut(bs, cs, base, b, c, r);
        assert forall|d: int| #[trigger] after.has(d) implies cs[d].ok(base, true) by {
            if d != b {
                assert(self.has(d));
                assert(cs[d] == gone(bs, c, d));
            }
        }
        assert(ms[b] == bs[b]);
        assert(cs =~= ms.update(b, cs[b]));
        lemma_alike_uses(bs[b].tree(base), cs[b].tree(base));
        let but = names(cs[b].subbuckets@);
        assert forall|i: int| 0 <= i < without_key(s, name).len() implies (#[trigger] without_key(s, name)[i]).key != name by {
            lemma_pos(without_key(s, name), name);
            assert(at_key(without_key(s, name), name) is None);
        }
        assert forall|p: Pgid| #[trigger] total(cs, base, p) == total(ms, base, p) by {
            lemma_total_update(ms, b, cs[b], base, p);
            lemma_nested_without(base, s, name, bs[b].opened(), p);
            lemma_nested_same(base, without_key(s, name), name, but, p);
            assert(bs[b].tree(base).uses(p) == cs[b].tree(base).uses(p));
        }
    }

    /// Why a nested bucket is not moved.
    pub open spec fn move_refused(&self, src: int, dst: int, name: Key) -> Option<Error> {
        if self.fixed() is Some {
            self.fixed()
        } else if src == dst {
            Some(Error::SameBuckets)
        } else if at_key(self.items(src), name) is None {
            Some(Error::BucketNotFound)
        } else if !bucket_at(self.items(src), name) {
            Some(Error::IncompatibleValue)
        } else if bucket_at(self.items(dst), name) {
            Some(Error::BucketExists)
        } else if at_key(self.items(dst), name) is Some {
            Some(Error::IncompatibleValue)
        } else {
            None
        }
    }

    /// Bucket `d` once the nested bucket of a name is no longer open in bucket `b`.
    pub open spec fn without_open(&self, b: int, name: Key, d: int) -> BucketInner {
        match sub_id(self.buckets@[b].subbuckets@, name) {
            Some(c) => gone(self.buckets@, c as int, d),
            None => self.buckets@[d],
        }
    }

    /// The nested bucket of a name is still made up of all the pages that its element in bucket
    /// `b` stands for: it is not open, or no bucket with pages was deleted in it since.
    pub open spec fn whole(&self, b: int, name: Key) -> bool {
        match sub_id(self.buckets@[b].subbuckets@, name) {
            Some(c) => forall|p: Pgid| #[trigger]
                item_refs(self.base@, at_key(self.items(b), name)->0, p) + total(
                    gone_all(self.buckets@, c as int),
                    self.base@,
                    p,
                ) <= total(self.buckets@, self.base@, p),
            None => true,
        }
    }

    /// The element of a nested bucket has moved from bucket `src` to bucket `dst`.
    pub open spec fn moved(&self, after: &Self, src: int, dst: int, name: Key) -> bool {
        &&& *after == (TxInner { buckets: after.buckets, ..*self })
        &&& after.buckets@.len() == self.buckets@.len()
        &&& after.items(src) == without_key(self.items(src), name)
        &&& after.items(dst) == with_item(self.items(dst), at_key(self.items(src), name)->0)
        &&& less_one(self.buckets@[src], after.buckets@[src], name)
        &&& after.buckets@[dst].same_but_root(self.without_open(src, name, dst))
        &&& after.has(src)
        &&& forall|d: int|
            0 <= d < self.buckets@.len() && d != src && d != dst ==> #[trigger] after.buckets@[d] == self.without_open(
                src,
                name,
                d,
            )
    }

    /// Bucket `c` and all nested in it are no longer open.
    fn detach(&mut self, c: BucketId)
        requires
            c < old(self).buckets@.len(),
        ensures
            *final(self) == (TxInner { buckets: final(self).buckets, ..*old(self) }),
            final(self).buckets@ == gone_all(old(self).buckets@, c as int),
    {
        let ghost bs = self.buckets@;
        let ghost t0 = *self;
        let below_c: Vec<bool> = self.descendants(c);
        let n: usize = self.buckets.len();
        let mut d: usize = 0;
        while d < n
            invariant
                t0 == *old(self),
                bs == t0.buckets@,
                *self == (TxInner { buckets: self.buckets, ..t0 }),
                n == bs.len(),
                self.buckets@.len() == n,
                below_c@.len() == n,
                forall|e: int| 0 <= e < n ==> #[trigger] below_c@[e] == below(bs, c as int, e),
                d <= n,
                forall|e: int|
                    0 <= e < n ==> #[trigger] self.buckets@[e] == (if e < d {
                        gone(bs, c as int, e)
                    } else {
                        bs[e]
                    }),
            decreases n - d,
        {
            if below_c[d] {
                self.buckets[d].live = false;
            }
            d = d + 1;
        }
        assert(self.buckets@ =~= gone_all(bs, c as int));
    }

    /// Takes the element of a nested bucket out of bucket `src`. If the bucket was open it no longer
    /// is.
    fn take_out(&mut self, src: BucketId, name: &[u8])
        requires
            old(self).good(),
            old(self).has(src as int),
            bucket_at(old(self).items(src as int), name@),
        ensures
            final(self).good(),
            *final(self) == (TxInner { buckets: final(self).buckets, ..*old(self) }),
            final(self).buckets@.len() == old(self).buckets@.len(),
            final(self).has(src as int),
            final(self).items(src as int) == without_key(old(self).items(src as int), name@),
            less_one(old(self).buckets@[src as int], final(self).buckets@[src as int], name@),
            forall|d: int|
                0 <= d < old(self).buckets@.len() && d != src ==> #[trigger] final(self).buckets@[d]
                    == old(self).without_open(src as int, name@, d),
            old(self).counted(final(self), src as int, name@),
            edits_bucket(
                old(self).buckets@[src as int],
                final(self).buckets@[src as int],
                old(self).base@,
                Edit::Del { key: name@ },
            ),
    {
        let ghost before = *self;
        let ghost base = self.base@;
        let ghost bs = self.buckets@;
        proof {
            assert(subs_linked(bs, base, src as int));
            let i = lemma_sub_id(bs[src as int].subbuckets@, name@);
        }
        match self.find_open(src, name) {
            Some(c) => {
                proof {
                    let i = lemma_sub_id(bs[src as int].subbuckets@, name@);
                    assert(bs[src as int].subbuckets@[i].1 == c);
                }
                assert(!below(bs, c as int, src as int));
                self.detach(c);
                let ghost mid = *self;
                let r = self.forget(src, name);
                let ghost b0 = self.buckets@[src as int];
                self.buckets[src].del(&self.pages, name, self.base);
                proof {
                    lemma_edits_same(b0, bs[src as int], self.buckets@[src as int], base, Edit::Del { key: name@ });
                    before.lemma_taken_open(&mid, &*self, src as int, name@, c as int, r@);
                    assert forall|k: Key| #[trigger] sub_id(self.buckets@[src as int].subbuckets@, k) == (if k == name@ {
                        None
                    } else {
                        sub_id(bs[src as int].subbuckets@, k)
                    }) by {
                        lemma_forgotten(bs[src as int].subbuckets@, r@, k);
                    }
                }
            },
            None => {
                self.buckets[src].del(&self.pages, name, self.base);
                proof {
                    before.lemma_taken_unopened(&*self, src as int, name@);
                }
            },
        }
    }

    /// How often pages are used once a nested bucket is taken out.
    spec fn counted(&self, after: &Self, src: int, name: Key) -> bool {
        match sub_id(self.buckets@[src].subbuckets@, name) {
            Some(c) => forall|p: Pgid| #[trigger]
                total(after.buckets@, self.base@, p) == total(gone_all(self.buckets@, c as int), self.base@, p),
            None => forall|p: Pgid| #[trigger]
                total(after.buckets@, self.base@, p) + item_refs(self.base@, at_key(self.items(src), name)->0, p)
                    == total(self.buckets@, self.base@, p),
        }
    }

    /// Moves a nested bucket, as it was when the transaction began or when it was put there, to
    /// another bucket. If it was open it no longer is, and what was done to it is lost.
    pub fn move_bucket(&mut self, src: BucketId, dst: BucketId, name: &[u8]) -> (r: Result<()>)
        requires
            old(self).good(),
            old(self).has(src as int),
            old(self).has(dst as int),
        ensures
            final(self).good(),
            match old(self).move_refused(src as int, dst as int, name@) {
                Some(e) => r == Err::<(), Error>(e) && *final(self) == *old(self),
                None => {
                    &&& r is Ok
                    &&& old(self).moved(final(self), src as int, dst as int, name@)
                    &&& edits_bucket(
                        old(self).buckets@[src as int],
                        final(self).buckets@[src as int],
                        old(self).base@,
                        Edit::Del { key: name@ },
                    )
                    &&& edits_bucket(
                        old(self).without_open(src as int, name@, dst as int),
                        final(self).buckets@[dst as int],
                        old(self).base@,
                        Edit::Put { item: at_key(old(self).items(src as int), name@)->0 },
                    )
                    &&& forall|list: FreelistV|
                        old(self).whole(src as int, name@) && #[trigger] old(self).sound(list) ==> final(self).sound(list)
                    &&& sub_id(old(self).buckets@[src as int].subbuckets@, name@) is None ==> forall|list: FreelistV|
                        #[trigger] old(self).full(list) ==> final(self).full(list)
                },
            },
    {
        if self.closed || !self.opened {
            return Err(Error::TxClosed);
        }
        if !self.writable {
            return Err(Error::TxNotWritable);
        }
        if src == dst {
            return Err(Error::SameBuckets);
        }
        let item: Inode = match self.buckets[src].find(&self.pages, name, self.base, Ghost(true)) {
            Some(item) => item,
            None => {
                return Err(Error::BucketNotFound);
            },
        };
        if item.flags & BUCKET_LEAF_FLAG == 0 {
            return Err(Error::IncompatibleValue);
        }
        match self.buckets[dst].find(&self.pages, name, self.base, Ghost(true)) {
            Some(other) => {
                if other.flags & BUCKET_LEAF_FLAG != 0 {
                    return Err(Error::BucketExists);
                }
                return Err(Error::IncompatibleValue);
            },
            None => {},
        }
        let ghost before = *self;
        let ghost base = self.base@;
        let ghost v = item@;
        proof {
            let s = self.items(src as int);
            self.buckets@[src as int].lemma_items(base, true);
            lemma_pos(s, name@);
            assert(base.item_ok(s[pos(s, name@)]));
            assert(s[pos(s, name@)].pgid == 0);
            assert(key_ok(s[pos(s, name@)].key, None, None));
        }
        self.take_out(src, name);
        let ghost mid = *self;
        proof {
            assert(before.buckets@[dst as int].ok(base, true));
            assert(mid.buckets@[dst as int] == before.without_open(src as int, name@, dst as int));
            assert(mid.buckets@[dst as int].tree(base) == before.buckets@[dst as int].tree(base));
        }
        self.put_moved(dst, item);
        proof {
            if sub_id(before.buckets@[src as int].subbuckets@, name@) is None {
                let subs = mid.buckets@[dst as int].subbuckets@;
                assert(mid.has(dst as int));
                assert(subs_linked(mid.buckets@, base, dst as int));
                if mid.buckets@[dst as int].opened().contains(name@) {
                    let i = choose|i: int| 0 <= i < subs.len() && (#[trigger] subs[i]).0@ == name@;
                    assert(subs[i].0@ == name@);
                }
            }
            if before.whole(src as int, name@) {
                before.lemma_moved(&mid, &*self, src as int, dst as int, name@, v);
            }
        }
        Ok(())
    }

    /// Puts the element of a nested bucket into bucket `dst`.
    fn put_moved(&mut self, dst: BucketId, item: Inode)
        requires
            old(self).good(),
            dst < old(self).buckets@.len(),
            old(self).buckets@[dst as int].ok(old(self).base@, true),
            at_key(old(self).items(dst as int), item@.key) is None,
            key_ok(item@.key, None, None),
            item@.pgid == 0,
            old(self).base@.item_ok(item@),
        ensures
            final(self).good(),
            final(self).same_but(old(self), dst as int),
            final(self).buckets@[dst as int].same_but_root(old(self).buckets@[dst as int]),
            final(self).items(dst as int) == with_item(old(self).items(dst as int), item@),
            alike(
                old(self).buckets@[dst as int].tree(old(self).base@),
                final(self).buckets@[dst as int].tree(old(self).base@),
            ),
            edits_bucket(
                old(self).buckets@[dst as int],
                final(self).buckets@[dst as int],
                old(self).base@,
                Edit::Put { item: item@ },
            ),
    {
        let ghost mid = *self;
        let ghost base = self.base@;
        let ghost v = item@;
        self.buckets[dst].put(&self.pages, item, self.base, Ghost(true));
        proof {
            let t = mid.items(dst as int);
            mid.buckets@[dst as int].lemma_items(base, true);
            lemma_with_item(t, v);
            assert forall|k: Key| #[trigger] bucket_at(mid.items(dst as int), k) implies at_key(
                self.items(dst as int),
                k,
            ) == at_key(mid.items(dst as int), k) by {
                assert(at_key(with_item(t, v), k) == at_key(t, k));
            }
            Self::lemma_changed_good(&mid, &*self, dst as int);
        }
    }

    /// A bucket moved whole leaves the pages counted right.
    proof fn lemma_moved(&self, mid: &Self, after: &Self, src: int, dst: int, name: Key, v: InodeV)
        requires
            self.base@.ok(),
            0 <= src < self.buckets@.len(),
            0 <= dst < self.buckets@.len(),
            at_key(self.items(src), name) == Some(v),
            is_bucket(v),
            mid.buckets@.len() == self.buckets@.len(),
            mid.base == self.base,
            mid.meta == self.meta,
            mid.buckets@[dst].ok(self.base@, true),
            at_key(mid.items(dst), name) is None,
            v.key == name,
            self.counted(mid, src, name),
            after.same_but(mid, dst),
            after.buckets@[dst].same_but_root(mid.buckets@[dst]),
            after.items(dst) == with_item(mid.items(dst), v),
            alike(mid.buckets@[dst].tree(self.base@), after.buckets@[dst].tree(self.base@)),
            self.whole(src, name),
            sub_id(self.buckets@[src].subbuckets@, name) is None ==> mid.has(dst) && !mid.buckets@[dst].opened().contains(name),
            after.base == self.base,
            after.meta == self.meta,
        ensures
            forall|list: FreelistV| #[trigger] self.sound(list) ==> after.sound(list),
            sub_id(self.buckets@[src].subbuckets@, name) is None ==> forall|list: FreelistV| #[trigger]
                self.full(list) ==> after.full(list),
    {
        let base = self.base@;
        let bs = self.buckets@;
        let ms = mid.buckets@;
        let cs = after.buckets@;
        assert(cs =~= ms.update(dst, cs[dst]));
        assert forall|p: Pgid| #[trigger] total(cs, base, p) <= total(bs, base, p) by {
            lemma_put_counts(ms, cs[dst], base, dst, v, p);
            match sub_id(bs[src].subbuckets@, name) {
                Some(c) => {
                    assert(total(ms, base, p) == total(gone_all(bs, c as int), base, p));
                    assert(item_refs(base, at_key(self.items(src), name)->0, p) == item_refs(base, v, p));
                    assert(item_refs(base, v, p) + total(gone_all(bs, c as int), base, p) <= total(bs, base, p));
                },
                None => {
                    assert(total(ms, base, p) + item_refs(base, v, p) == total(bs, base, p));
                },
            }
        }
        assert forall|list: FreelistV| #[trigger] self.sound(list) implies after.sound(list) by {
            assert forall|p: Pgid| #[trigger]
                total(cs, base, p) + list_own(base, p) + spare(list, after.meta.pgid, p) <= 1 by {
                assert(total(bs, base, p) + list_own(base, p) + spare(list, self.meta.pgid, p) <= 1);
                assert(total(cs, base, p) <= total(bs, base, p));
            }
        }
        if sub_id(bs[src].subbuckets@, name) is None {
            assert forall|p: Pgid| #[trigger] total(cs, base, p) == total(bs, base, p) by {
                lemma_put_counts(ms, cs[dst], base, dst, v, p);
                ms[dst].lemma_items(base, true);
                assert(!has_key(ms[dst].items(base), name));
                assert(total(ms, base, p) + item_refs(base, v, p) == total(bs, base, p));
            }
            Self::lemma_same_total(self, after);
        }
    }
}

/// An element put in its place counts at most what it stands for.
proof fn lemma_put_counts(ms: Seq<BucketInner>, after: BucketInner, base: Base, d: int, v: InodeV, p: Pgid)
    requires
        0 <= d < ms.len(),
        base.ok(),
        ms[d].ok(base, true),
        after.same_but_root(ms[d]),
        after.items(base) == with_item(ms[d].items(base), v),
        alike(ms[d].tree(base), after.tree(base)),
    ensures
        total(ms.update(d, after), base, p) <= total(ms, base, p) + item_refs(base, v, p),
        ms[d].live && !ms[d].opened().contains(v.key) && !has_key(ms[d].items(base), v.key) ==> total(ms.update(d, after), base, p)
            == total(ms, base, p) + item_refs(base, v, p),
{
    ms[d].lemma_items(base, true);
    lemma_alike_uses(ms[d].tree(base), after.tree(base));
    lemma_total_update(ms, d, after, base, p);
    lemma_nested_with(base, ms[d].items(base), v, ms[d].opened(), p);
    assert(ms[d].tree(base).uses(p) == after.tree(base).uses(p));
}

/// The open buckets once bucket `c` and those below it are gone.
pub open spec fn gone_all(bs: Seq<BucketInner>, c: int) -> Seq<BucketInner> {
    Seq::new(bs.len(), |d: int| gone(bs, c, d))
}

} // verus!
