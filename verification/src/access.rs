//! What a transaction says of itself and of its buckets.
use vstd::prelude::*;
use crate::bucket::{BucketId, BucketInner};
use crate::error::{Error, Result};
use crate::freelist::FreelistV;
use crate::page::Pgid;
use crate::scan::Cursor;
use crate::tx::{lemma_total_update, subs_linked, total, value_at, TxInner};

verus! {

impl<'a> TxInner<'a> {
    /// The number of the transaction, or -1 once it is closed.
    pub fn id(&self) -> (n: i64)
        requires
            self.meta.txid <= i64::MAX,
        ensures
            n == (if self.closed { -1 } else { self.meta.txid as int }),
    {
        if self.closed {
            -1
        } else {
            self.meta.txid as i64
        }
    }

    /// Whether the transaction may change anything.
    pub fn is_writable(&self) -> (b: bool)
        ensures
            b == self.writable,
    {
        self.writable
    }

    /// The size of the database in bytes.
    pub fn size(&self) -> (n: u64)
        requires
            self.meta.pgid * self.pages.page_size <= u64::MAX,
        ensures
            n == self.meta.pgid * self.pages.page_size,
    {
        self.meta.pgid * self.pages.page_size as u64
    }

    /// The size of a page.
    pub fn page_size(&self) -> (n: usize)
        ensures
            n == self.pages.page_size,
    {
        self.pages.page_size
    }

    /// The first page behind the last one of the database.
    pub fn high_water_mark(&self) -> (p: Pgid)
        ensures
            p == self.meta.pgid,
    {
        self.meta.pgid
    }

    /// The root page of a bucket, or zero while it has none of its own.
    pub fn root(&self, b: BucketId) -> (p: Pgid)
        requires
            self.has(b as int),
        ensures
            p == self.buckets@[b as int].header.root,
    {
        self.buckets[b].header.root
    }

    /// Whether a key has a value.
    pub fn has_value(&self, b: BucketId, key: &[u8]) -> (r: Result<bool>)
        requires
            self.good(),
            self.has(b as int),
        ensures
            r == (match self.shut() {
                Some(e) => Err::<bool, Error>(e),
                None => Ok::<bool, Error>(value_at(self.items(b as int), key@) is Some),
            }),
    {
        match self.get(b, key) {
            Ok(v) => Ok(v.is_some()),
            Err(e) => Err(e),
        }
    }

    /// A cursor over a bucket.
    pub fn cursor(&self, b: BucketId) -> (c: Cursor)
        requires
            self.good(),
            self.has(b as int),
        ensures
            c.bucket == b,
            c.stack@.len() == 0,
            c.leaf_pgid == 0,
            c.held() == (None::<Seq<u8>>, None::<Seq<u8>>),
            c.fit(self),
    {
        Cursor::new(b)
    }

    /// Sets how full the pages of a bucket are made when it is split, and below which size they are
    /// merged.
    pub fn set_fill(&mut self, b: BucketId, split_at: usize, merge_at: usize)
        requires
            old(self).good(),
            old(self).has(b as int),
            split_at <= old(self).pages.page_size,
        ensures
            final(self).good(),
            final(self).same_but(old(self), b as int),
            final(self).buckets@[b as int] == (BucketInner {
                split_at,
                merge_at,
                ..old(self).buckets@[b as int]
            }),
            final(self).items(b as int) == old(self).items(b as int),
            forall|list: FreelistV| #[trigger] old(self).sound(list) ==> final(self).sound(list),
            forall|list: FreelistV| #[trigger] old(self).full(list) ==> final(self).full(list),
    {
        let ghost tx0 = *self;
        self.buckets[b].split_at = split_at;
        self.buckets[b].merge_at = merge_at;
        proof {
            lemma_refilled(tx0, *self, b as int);
        }
    }
}

/// How full pages are made has no part in what a transaction holds.
proof fn lemma_refilled(before: TxInner, after: TxInner, b: int)
    requires
        before.good(),
        before.has(b),
        after.same_but(&before, b),
        after.buckets@[b] == (BucketInner {
            split_at: after.buckets@[b].split_at,
            merge_at: after.buckets@[b].merge_at,
            ..before.buckets@[b]
        }),
        after.buckets@[b].split_at <= before.pages.page_size,
    ensures
        after.good(),
        after.items(b) == before.items(b),
        forall|list: FreelistV| #[trigger] before.sound(list) ==> after.sound(list),
        forall|list: FreelistV| #[trigger] before.full(list) ==> after.full(list),
{
    let bs = before.buckets@;
    let cs = after.buckets@;
    let base = before.base@;
    assert(forall|c: int| #![trigger cs[c]] 0 <= c < cs.len() ==> cs[c].tree(base) == bs[c].tree(base));
    assert forall|c: int| #[trigger] after.has(c) implies cs[c].ok(base, true) by {
        assert(before.has(c));
        assert(bs[c].ok(base, true));
    }
    assert forall|d: int| #![trigger cs[d]] 0 <= d < cs.len() && cs[d].live implies subs_linked(cs, base, d) by {
        assert(bs[d].live);
        assert(subs_linked(bs, base, d));
        assert(cs[d].subbuckets == bs[d].subbuckets);
    }
    assert(cs =~= bs.update(b, cs[b]));
    assert forall|p: Pgid| #[trigger] total(cs, base, p) == total(bs, base, p) by {
        lemma_total_update(bs, b, cs[b], base, p);
    }
    TxInner::lemma_same_total(&before, &after);
}

} // verus!
