//! Transactions: the buckets that are open in one, and what is done to them.
use vstd::prelude::*;
use vstd::slice::slice_to_vec;
use crate::bucket::{empty_bucket, empty_inline_bucket_value, lemma_empty_bucket, BucketId, BucketInner};
use crate::contents::{item_refs, lemma_nested_all, lemma_nested_but, lemma_nested_none, lemma_nested_with, lemma_nested_without, lemma_page_subs, nested};
use crate::edits::{edits_bucket, Edit};
use crate::error::{Error, Result};
use crate::freelist::FreelistV;
use crate::inode::{decode, Inode, InodeV};
use crate::ledger::ledger;
use crate::node::{inline_page, inline_tree, Base, Pages};
use crate::order::key_equal;
use crate::page::{header_of, in_bucket_at, BUCKET_LEAF_FLAG, InBucket, MAX_KEY_SIZE, MAX_VALUE_SIZE, Meta, PGID_NO_FREELIST, Pgid};
use crate::stats::TxStats;
use crate::tree::{alike, at_key, is_bucket, lemma_alike_uses, lemma_pos, lemma_refs_split, lemma_with_item, lemma_without_key, pos, root_of, with_item, without_key, Key};
use crate::writer::{apart, fenced, page_size_ok, spare};

verus! {

/// A transaction.
pub struct TxInner<'a> {
    pub pages: Pages<'a>,
    pub writable: bool,
    /// Whether a surrounding call commits the transaction or rolls it back.
    pub managed: bool,
    pub closed: bool,
    /// Whether the database is still open.
    pub opened: bool,
    pub meta: Meta,
    /// The buckets that have been opened. The first one is the root bucket.
    pub buckets: Vec<BucketInner>,
    pub stats: TxStats,
    pub base: Ghost<Base>,
}

/// The bytes of an optional value.
pub open spec fn opt_view(v: Option<Vec<u8>>) -> Option<Seq<u8>> {
    match v {
        Some(x) => Some(x@),
        None => None,
    }
}

/// The value of a key, where the key has one and no nested bucket.
pub open spec fn value_at(items: Seq<InodeV>, key: Key) -> Option<Seq<u8>> {
    match at_key(items, key) {
        Some(item) => if is_bucket(item) {
            None
        } else {
            Some(item.value)
        },
        None => None,
    }
}

/// Whether the key has a nested bucket.
pub open spec fn bucket_at(items: Seq<InodeV>, key: Key) -> bool {
    at_key(items, key) matches Some(item) && is_bucket(item)
}

/// An element with a value.
pub open spec fn value_item(key: Key, value: Seq<u8>) -> InodeV {
    InodeV { flags: 0, pgid: 0, key, value }
}

// ---------------------------------------------------------------------------------------------
// How often pages are used.

/// How often an open bucket, and the nested ones that are not open, use page `p`.
pub open spec fn bucket_refs(b: BucketInner, base: Base, p: Pgid) -> nat {
    if b.live {
        b.tree(base).uses(p) + nested(base, b.items(base), b.opened(), p)
    } else {
        0
    }
}

/// How often all open buckets use page `p`.
pub open spec fn total(bs: Seq<BucketInner>, base: Base, p: Pgid) -> nat
    decreases bs.len(),
{
    if bs.len() == 0 {
        0
    } else {
        total(bs.drop_last(), base, p) + bucket_refs(bs.last(), base, p)
    }
}

/// One bucket changes.
pub proof fn lemma_total_update(bs: Seq<BucketInner>, i: int, b: BucketInner, base: Base, p: Pgid)
    requires
        0 <= i < bs.len(),
    ensures
        total(bs.update(i, b), base, p) == total(bs, base, p) - bucket_refs(bs[i], base, p) + bucket_refs(b, base, p),
        bucket_refs(bs[i], base, p) <= total(bs, base, p),
    decreases bs.len(),
{
    let cs = bs.update(i, b);
    if i == bs.len() - 1 {
        assert(cs.drop_last() =~= bs.drop_last());
    } else {
        lemma_total_update(bs.drop_last(), i, b, base, p);
        assert(cs.drop_last() =~= bs.drop_last().update(i, b));
        assert(cs.last() == bs.last());
    }
}

/// One bucket is added.
pub proof fn lemma_total_push(bs: Seq<BucketInner>, b: BucketInner, base: Base, p: Pgid)
    ensures
        total(bs.push(b), base, p) == total(bs, base, p) + bucket_refs(b, base, p),
{
    assert(bs.push(b).drop_last() =~= bs);
}

/// How often the page of the freelist, with its overflow, covers page `p`.
pub open spec fn list_own(base: Base, p: Pgid) -> nat {
    if base.list_pgid != 0 && base.list_pgid <= p <= base.list_pgid + base.list_over {
        1
    } else {
        0
    }
}

/// The page of the freelist is the one that the meta page names, where it can be read.
#[verifier::opaque]
pub open spec fn list_known(pages: Pages, meta: Meta, base: Base) -> bool {
    if meta.freelist != PGID_NO_FREELIST && pages.has(meta.freelist) {
        meta.freelist > 1 && base.list_pgid == meta.freelist && base.list_over == header_of(pages.bytes(meta.freelist)).overflow
    } else {
        base.list_pgid == 0
    }
}

// ---------------------------------------------------------------------------------------------
// How the open buckets hang together.

/// A bucket that was not changed since it was opened is what its element says.
pub open spec fn as_stored(b: BucketInner, item: InodeV) -> bool {
    b.root_node is None ==> {
        &&& b.header == in_bucket_at(item.value, 0)
        &&& b.header.root == 0 ==> b.inline_page is Some && b.inline_page->0@ == inline_page(item.value)
    }
}

/// The open buckets nested in bucket `b` are there, under their names.
pub open spec fn subs_linked(bs: Seq<BucketInner>, base: Base, b: int) -> bool {
    let subs = bs[b].subbuckets@;
    &&& forall|i: int|
        0 <= i < subs.len() ==> {
            let c = (#[trigger] subs[i]).1;
            &&& b < c < bs.len()
            &&& bs[c as int].live
            &&& bs[c as int].parent == b
            &&& bs[c as int].name@ == subs[i].0@
            &&& bucket_at(bs[b].items(base), subs[i].0@)
            &&& as_stored(bs[c as int], at_key(bs[b].items(base), subs[i].0@)->0)
        }
    &&& forall|i: int, j: int| 0 <= i < j < subs.len() ==> (#[trigger] subs[i]).0@ != (#[trigger] subs[j]).0@
}

/// Bucket `c` is known to the bucket that it is nested in.
pub open spec fn known(bs: Seq<BucketInner>, c: int) -> bool {
    &&& 0 <= bs[c].parent < c
    &&& bs[bs[c].parent as int].live
    &&& exists|i: int|
        0 <= i < bs[bs[c].parent as int].subbuckets@.len() && (#[trigger] bs[bs[c].parent as int].subbuckets@[i]).1 == c
}

/// The open buckets hang together as a tree with the root bucket at its root.
pub open spec fn linked(bs: Seq<BucketInner>, base: Base) -> bool {
    &&& bs.len() > 0
    &&& bs[0].live
    &&& forall|b: int| #![trigger bs[b]] 0 <= b < bs.len() && bs[b].live ==> subs_linked(bs, base, b)
    &&& forall|c: int| #![trigger bs[c]] 0 < c < bs.len() && bs[c].live ==> known(bs, c)
}

/// The open bucket of a name.
pub open spec fn sub_id(subs: Seq<(Vec<u8>, BucketId)>, name: Key) -> Option<BucketId>
    decreases subs.len(),
{
    if subs.len() == 0 {
        None
    } else if subs.last().0@ == name {
        Some(subs.last().1)
    } else {
        sub_id(subs.drop_last(), name)
    }
}

/// What the search for a name says.
pub proof fn lemma_sub_id(subs: Seq<(Vec<u8>, BucketId)>, name: Key) -> (i: int)
    ensures
        sub_id(subs, name) matches Some(c) ==> 0 <= i < subs.len() && subs[i].0@ == name && subs[i].1 == c,
        sub_id(subs, name) is None ==> forall|j: int| 0 <= j < subs.len() ==> (#[trigger] subs[j]).0@ != name,
    decreases subs.len(),
{
    if subs.len() == 0 {
        0
    } else if subs.last().0@ == name {
        subs.len() - 1
    } else {
        let i = lemma_sub_id(subs.drop_last(), name);
        assert forall|j: int| sub_id(subs, name) is None && 0 <= j < subs.len() implies (#[trigger] subs[j]).0@ != name by {
            if j < subs.len() - 1 {
                assert(subs.drop_last()[j].0@ != name);
            }
        }
        i
    }
}

/// Where all names differ, the search finds each.
pub proof fn lemma_sub_at(subs: Seq<(Vec<u8>, BucketId)>, i: int)
    requires
        0 <= i < subs.len(),
        forall|i: int, j: int| 0 <= i < j < subs.len() ==> (#[trigger] subs[i]).0@ != (#[trigger] subs[j]).0@,
    ensures
        sub_id(subs, subs[i].0@) == Some(subs[i].1),
{
    let j = lemma_sub_id(subs, subs[i].0@);
    assert(subs[i].0@ == subs[i].0@);
    if j < i {
        assert(subs[j].0@ != subs[i].0@);
    } else if i < j {
        assert(subs[i].0@ != subs[j].0@);
    }
}

/// A bucket that was just opened holds what its element says.
pub open spec fn opened_from(b: BucketInner, item: InodeV) -> bool {
    &&& b.header == in_bucket_at(item.value, 0)
    &&& b.root_node is None
    &&& b.header.root == 0 ==> b.inline_page is Some && b.inline_page->0@ == inline_page(item.value)
    &&& b.subbuckets@.len() == 0
    &&& b.live
}

/// The number of bytes that a page is filled with when a node is split, unless something else is
/// asked for: half of them.
pub open spec fn default_split(page_size: int) -> int {
    page_size / 2
}

/// The size up to which a node is merged after a deletion, unless something else is asked for.
pub open spec fn default_merge(page_size: int) -> int {
    page_size / 4
}

impl<'a> TxInner<'a> {
    /// Bucket `b` is open.
    pub open spec fn has(&self, b: int) -> bool {
        0 <= b < self.buckets@.len() && self.buckets@[b].live
    }

    /// The elements of bucket `b`.
    pub open spec fn items(&self, b: int) -> Seq<InodeV> {
        self.buckets@[b].items(self.base@)
    }

    /// The transaction is consistent.
    pub open spec fn good(&self) -> bool {
        &&& page_size_ok(self.pages.page_size as int)
        &&& self.base@.ok()
        &&& self.pages.backs(self.base@)
        &&& forall|p: Pgid| #[trigger] self.base@.forest.contains_key(p) ==> self.base@.old.contains(p)
        &&& linked(self.buckets@, self.base@)
        &&& forall|b: int| #[trigger] self.has(b) ==> self.buckets@[b].ok(self.base@, true)
        &&& self.buckets@[0].header.root != 0
        &&& list_known(self.pages, self.meta, self.base@)
    }

    /// No page is used twice, or used and free.
    pub open spec fn sound(&self, list: FreelistV) -> bool {
        &&& ledger(list, self.base@, self.meta.txid)
        &&& fenced(self.base@, list, self.meta.pgid)
        &&& apart(self.base@)
        &&& forall|p: Pgid| #[trigger]
            total(self.buckets@, self.base@, p) + list_own(self.base@, p) + spare(list, self.meta.pgid, p) <= 1
    }

    /// Every page is in use or at hand, and is so once.
    pub open spec fn full(&self, list: FreelistV) -> bool {
        forall|p: Pgid| #[trigger]
            total(self.buckets@, self.base@, p) + list_own(self.base@, p) + spare(list, self.meta.pgid, p) == (if p <= 1 {
                0nat
            } else {
                1nat
            })
    }

    /// All but bucket `b` is as it was.
    pub open spec fn same_but(&self, other: &Self, b: int) -> bool {
        &&& *self == (TxInner { buckets: self.buckets, ..*other })
        &&& self.buckets@.len() == other.buckets@.len()
        &&& forall|c: int| 0 <= c < self.buckets@.len() && c != b ==> #[trigger] self.buckets@[c] == other.buckets@[c]
    }

    /// Why a closed transaction refuses a request.
    pub open spec fn shut(&self) -> Option<Error> {
        if self.closed || !self.opened {
            Some(Error::TxClosed)
        } else {
            None
        }
    }

    /// Why a transaction refuses a change.
    pub open spec fn fixed(&self) -> Option<Error> {
        if self.shut() is Some {
            self.shut()
        } else if !self.writable {
            Some(Error::TxNotWritable)
        } else {
            None
        }
    }

    /// Why a value is not put.
    pub open spec fn put_refused(&self, b: int, key: Key, value: Seq<u8>) -> Option<Error> {
        if self.fixed() is Some {
            self.fixed()
        } else if key.len() == 0 {
            Some(Error::KeyRequired)
        } else if key.len() > MAX_KEY_SIZE {
            Some(Error::KeyTooLarge)
        } else if value.len() > MAX_VALUE_SIZE {
            Some(Error::ValueTooLarge)
        } else if bucket_at(self.items(b), key) {
            Some(Error::IncompatibleValue)
        } else {
            None
        }
    }

    /// Why a key is not deleted.
    pub open spec fn delete_refused(&self, b: int, key: Key) -> Option<Error> {
        if self.fixed() is Some {
            self.fixed()
        } else if bucket_at(self.items(b), key) {
            Some(Error::IncompatibleValue)
        } else {
            None
        }
    }

    /// The transaction and the database are open.
    pub fn check_open(&self) -> (r: Result<()>)
        ensures
            r == (match self.shut() {
                Some(e) => Err(e),
                None => Ok(()),
            }),
    {
        if self.closed || !self.opened {
            Err(Error::TxClosed)
        } else {
            Ok(())
        }
    }

    /// The transaction can change the database.
    pub fn check_writable(&self) -> (r: Result<()>)
        ensures
            r == (match self.fixed() {
                Some(e) => Err(e),
                None => Ok(()),
            }),
    {
        if self.closed || !self.opened {
            Err(Error::TxClosed)
        } else if !self.writable {
            Err(Error::TxNotWritable)
        } else {
            Ok(())
        }
    }

    /// Whether a bucket is open.
    pub fn is_open(&self, b: BucketId) -> (r: bool)
        ensures
            r == self.has(b as int),
    {
        b < self.buckets.len() && self.buckets[b].live
    }

    /// A bucket that is changed, with all nested buckets still in it, leaves everything consistent.
    pub proof fn lemma_changed_good(before: &Self, after: &Self, b: int)
        requires
            before.good(),
            0 <= b < before.buckets@.len(),
            after.same_but(before, b),
            after.buckets@[b] == (BucketInner {
                root_node: after.buckets@[b].root_node,
                header: after.buckets@[b].header,
                inline_page: after.buckets@[b].inline_page,
                ..before.buckets@[b]
            }),
            after.buckets@[b].header.root == before.buckets@[b].header.root,
            before.has(b) ==> after.buckets@[b].ok(before.base@, true) && after.buckets@[b].root_node is Some,
            before.has(b) ==> forall|k: Key| #[trigger]
                bucket_at(before.items(b), k) ==> at_key(after.items(b), k) == at_key(before.items(b), k),
        ensures
            after.good(),
    {
        let bs = before.buckets@;
        let cs = after.buckets@;
        let base = before.base@;
        assert forall|c: int| #[trigger] after.has(c) implies cs[c].ok(base, true) by {
            assert(before.has(c));
        }
        assert forall|d: int| #![trigger cs[d]] 0 <= d < cs.len() && cs[d].live implies subs_linked(cs, base, d) by {
            assert(bs[d].live);
            assert(subs_linked(bs, base, d));
            assert(cs[d].subbuckets == bs[d].subbuckets);
            assert forall|i: int| 0 <= i < cs[d].subbuckets@.len() implies {
                let c = (#[trigger] cs[d].subbuckets@[i]).1;
                &&& d < c < cs.len()
                &&& cs[c as int].live
                &&& cs[c as int].parent == d
                &&& cs[c as int].name@ == cs[d].subbuckets@[i].0@
                &&& bucket_at(cs[d].items(base), cs[d].subbuckets@[i].0@)
                &&& as_stored(cs[c as int], at_key(cs[d].items(base), cs[d].subbuckets@[i].0@)->0)
            } by {
                assert(bucket_at(bs[d].items(base), bs[d].subbuckets@[i].0@));
                if d == b {
                    assert(before.has(b));
                    assert(bucket_at(before.items(b), bs[d].subbuckets@[i].0@));
                }
            }
        }
        assert forall|c: int| #![trigger cs[c]] 0 < c < cs.len() && cs[c].live implies known(cs, c) by {
            assert(bs[c].live);
            assert(known(bs, c));
            let q = bs[c].parent as int;
            let i = choose|i: int| 0 <= i < bs[q].subbuckets@.len() && (#[trigger] bs[q].subbuckets@[i]).1 == c;
            assert(cs[q].subbuckets@[i].1 == c);
        }
    }

    /// Where each page is used as often as before, all pages are still counted right.
    pub proof fn lemma_same_total(before: &Self, after: &Self)
        requires
            after.base == before.base,
            after.meta == before.meta,
            forall|p: Pgid| #[trigger]
                total(after.buckets@, before.base@, p) == total(before.buckets@, before.base@, p),
        ensures
            forall|list: FreelistV| #[trigger] before.sound(list) ==> after.sound(list),
            forall|list: FreelistV| #[trigger] before.full(list) ==> after.full(list),
    {
        let base = before.base@;
        assert forall|list: FreelistV| #[trigger] before.sound(list) implies after.sound(list) by {
            assert forall|p: Pgid| #[trigger]
                total(after.buckets@, base, p) + list_own(base, p) + spare(list, after.meta.pgid, p) <= 1 by {
                assert(total(before.buckets@, base, p) + list_own(base, p) + spare(list, before.meta.pgid, p) <= 1);
            }
        }
        assert forall|list: FreelistV| #[trigger] before.full(list) implies after.full(list) by {
            assert forall|p: Pgid| #[trigger]
                total(after.buckets@, base, p) + list_own(base, p) + spare(list, after.meta.pgid, p) == (if p <= 1 {
                    0nat
                } else {
                    1nat
                }) by {
                assert(total(before.buckets@, base, p) + list_own(base, p) + spare(list, before.meta.pgid, p) == (if p <= 1 {
                    0nat
                } else {
                    1nat
                }));
            }
        }
    }

    /// A bucket whose root was brought into memory, or changed without touching nested buckets,
    /// leaves everything consistent.
    proof fn lemma_changed(before: &Self, after: &Self, b: int)
        requires
            before.good(),
            before.has(b),
            after.same_but(before, b),
            after.buckets@[b] == (BucketInner {
                root_node: after.buckets@[b].root_node,
                header: after.buckets@[b].header,
                inline_page: after.buckets@[b].inline_page,
                ..before.buckets@[b]
            }),
            after.buckets@[b].header.root == before.buckets@[b].header.root,
            after.buckets@[b].ok(before.base@, true),
            after.buckets@[b].root_node is Some,
            alike(before.buckets@[b].tree(before.base@), after.buckets@[b].tree(before.base@)),
            forall|k: Key| #[trigger]
                bucket_at(before.items(b), k) ==> at_key(after.items(b), k) == at_key(before.items(b), k),
            forall|p: Pgid| #[trigger]
                nested(before.base@, after.items(b), before.buckets@[b].opened(), p) == nested(
                    before.base@,
                    before.items(b),
                    before.buckets@[b].opened(),
                    p,
                ),
        ensures
            after.good(),
            forall|list: FreelistV| #[trigger] before.sound(list) ==> after.sound(list),
            forall|list: FreelistV| #[trigger] before.full(list) ==> after.full(list),
    {
        let bs = before.buckets@;
        let cs = after.buckets@;
        let base = before.base@;
        Self::lemma_changed_good(before, after, b);
        assert(cs =~= bs.update(b, cs[b]));
        lemma_alike_uses(bs[b].tree(base), cs[b].tree(base));
        assert forall|p: Pgid| #[trigger] total(cs, base, p) == total(bs, base, p) by {
            lemma_total_update(bs, b, cs[b], base, p);
            assert(cs[b].opened() =~= bs[b].opened());
            assert(nested(base, after.items(b), bs[b].opened(), p) == nested(
                base,
                before.items(b),
                bs[b].opened(),
                p,
            ));
            assert(bs[b].tree(base).uses(p) == cs[b].tree(base).uses(p));
        }
        Self::lemma_same_total(before, after);
    }

    /// The value of a key.
    pub fn get(&self, b: BucketId, key: &[u8]) -> (r: Result<Option<Vec<u8>>>)
        requires
            self.good(),
            self.has(b as int),
        ensures
            match self.shut() {
                Some(e) => r == Err::<Option<Vec<u8>>, Error>(e),
                None => r matches Ok(v) && opt_view(v) == value_at(self.items(b as int), key@),
            },
    {
        if self.closed || !self.opened {
            return Err(Error::TxClosed);
        }
        match self.buckets[b].find(&self.pages, key, self.base, Ghost(true)) {
            Some(item) => {
                if item.flags & BUCKET_LEAF_FLAG != 0 {
                    Ok(None)
                } else {
                    Ok(Some(item.value))
                }
            },
            None => Ok(None),
        }
    }

    /// Puts a value under a key.
    pub fn put(&mut self, b: BucketId, key: &[u8], value: &[u8]) -> (r: Result<()>)
        requires
            old(self).good(),
            old(self).has(b as int),
        ensures
            final(self).good(),
            forall|list: FreelistV| #[trigger] old(self).sound(list) ==> final(self).sound(list),
            forall|list: FreelistV| #[trigger] old(self).full(list) ==> final(self).full(list),
            match old(self).put_refused(b as int, key@, value@) {
                Some(e) => r == Err::<(), Error>(e) && *final(self) == *old(self),
                None => {
                    &&& r is Ok
                    &&& final(self).same_but(old(self), b as int)
                    &&& final(self).buckets@[b as int].same_but_root(old(self).buckets@[b as int])
                    &&& final(self).items(b as int) == with_item(
                        old(self).items(b as int),
                        value_item(key@, value@),
                    )
                    &&& edits_bucket(
                        old(self).buckets@[b as int],
                        final(self).buckets@[b as int],
                        old(self).base@,
                        Edit::Put { item: value_item(key@, value@) },
                    )
                },
            },
    {
        if self.closed || !self.opened {
            return Err(Error::TxClosed);
        }
        if !self.writable {
            return Err(Error::TxNotWritable);
        }
        if key.len() == 0 {
            return Err(Error::KeyRequired);
        }
        if key.len() > MAX_KEY_SIZE {
            return Err(Error::KeyTooLarge);
        }
        if value.len() > MAX_VALUE_SIZE {
            return Err(Error::ValueTooLarge);
        }
        match self.buckets[b].find(&self.pages, key, self.base, Ghost(true)) {
            Some(item) => {
                if item.flags & BUCKET_LEAF_FLAG != 0 {
                    return Err(Error::IncompatibleValue);
                }
            },
            None => {},
        }
        let ghost before = *self;
        let ghost v = value_item(key@, value@);
        let item = Inode { flags: 0, pgid: 0, key: slice_to_vec(key), value: slice_to_vec(value) };
        proof {
            assert(0u32 & BUCKET_LEAF_FLAG == 0) by (bit_vector);
            assert(!is_bucket(v));
            assert(item@ == v);
        }
        self.buckets[b].put(&self.pages, item, self.base, Ghost(true));
        proof {
            let base = before.base@;
            before.buckets@[b as int].lemma_items(base, true);
            let s = before.items(b as int);
            lemma_with_item(s, v);
            assert forall|k: Key| #[trigger] bucket_at(before.items(b as int), k) implies at_key(
                self.items(b as int),
                k,
            ) == at_key(before.items(b as int), k) by {
                assert(at_key(with_item(s, v), k) == at_key(s, k));
            }
            assert forall|p: Pgid| #[trigger]
                nested(base, self.items(b as int), before.buckets@[b as int].opened(), p) == nested(
                    base,
                    s,
                    before.buckets@[b as int].opened(),
                    p,
                ) by {
                lemma_nested_with(base, s, v, before.buckets@[b as int].opened(), p);
            }
            Self::lemma_changed(&before, &*self, b as int);
        }
        Ok(())
    }

    /// Deletes a key with its value. A key that is not there is no error.
    pub fn delete(&mut self, b: BucketId, key: &[u8]) -> (r: Result<()>)
        requires
            old(self).good(),
            old(self).has(b as int),
        ensures
            final(self).good(),
            forall|list: FreelistV| #[trigger] old(self).sound(list) ==> final(self).sound(list),
            forall|list: FreelistV| #[trigger] old(self).full(list) ==> final(self).full(list),
            match old(self).delete_refused(b as int, key@) {
                Some(e) => r == Err::<(), Error>(e) && *final(self) == *old(self),
                None => {
                    &&& r is Ok
                    &&& final(self).same_but(old(self), b as int)
                    &&& final(self).buckets@[b as int].same_but_root(old(self).buckets@[b as int])
                    &&& final(self).items(b as int) == without_key(old(self).items(b as int), key@)
                    &&& if at_key(old(self).items(b as int), key@) is None {
                        *final(self) == *old(self)
                    } else {
                        edits_bucket(
                            old(self).buckets@[b as int],
                            final(self).buckets@[b as int],
                            old(self).base@,
                            Edit::Del { key: key@ },
                        )
                    }
                },
            },
    {
        if self.closed || !self.opened {
            return Err(Error::TxClosed);
        }
        if !self.writable {
            return Err(Error::TxNotWritable);
        }
        let ghost before = *self;
        match self.buckets[b].find(&self.pages, key, self.base, Ghost(true)) {
            Some(item) => {
                if item.flags & BUCKET_LEAF_FLAG != 0 {
                    return Err(Error::IncompatibleValue);
                }
            },
            None => {
                return Ok(());
            },
        }
        self.buckets[b].del(&self.pages, key, self.base);
        proof {
            let base = before.base@;
            before.buckets@[b as int].lemma_items(base, true);
            let s = before.items(b as int);
            lemma_without_key(s, key@);
            assert forall|k: Key| #[trigger] bucket_at(before.items(b as int), k) implies at_key(
                self.items(b as int),
                k,
            ) == at_key(before.items(b as int), k) by {
                assert(at_key(without_key(s, key@), k) == at_key(s, k));
            }
            assert forall|p: Pgid| #[trigger]
                nested(base, self.items(b as int), before.buckets@[b as int].opened(), p) == nested(
                    base,
                    s,
                    before.buckets@[b as int].opened(),
                    p,
                ) by {
                lemma_nested_without(base, s, key@, before.buckets@[b as int].opened(), p);
            }
            Self::lemma_changed(&before, &*self, b as int);
        }
        Ok(())
    }

    /// The sequence number of a bucket.
    pub fn sequence(&self, b: BucketId) -> (n: u64)
        requires
            self.has(b as int),
        ensures
            n == self.buckets@[b as int].header.sequence,
    {
        self.buckets[b].header.sequence
    }

    /// Sets the sequence number of a bucket.
    pub fn set_sequence(&mut self, b: BucketId, n: u64) -> (r: Result<()>)
        requires
            old(self).good(),
            old(self).has(b as int),
        ensures
            final(self).good(),
            forall|list: FreelistV| #[trigger] old(self).sound(list) ==> final(self).sound(list),
            forall|list: FreelistV| #[trigger] old(self).full(list) ==> final(self).full(list),
            match old(self).fixed() {
                Some(e) => r == Err::<(), Error>(e) && *final(self) == *old(self),
                None => {
                    &&& r is Ok
                    &&& old(self).numbered(final(self), b as int, n)
                },
            },
    {
        if self.closed || !self.opened {
            return Err(Error::TxClosed);
        }
        if !self.writable {
            return Err(Error::TxNotWritable);
        }
        let ghost before = *self;
        self.buckets[b].ensure_root_node(&self.pages, self.base, Ghost(true));
        self.buckets[b].header.sequence = n;
        proof {
            crate::tree::lemma_alike_same(before.buckets@[b as int].tree(before.base@));
            Self::lemma_changed(&before, &*self, b as int);
        }
        Ok(())
    }

    /// Bucket `b` has the sequence number `n` in `after`, and nothing else is changed.
    pub open spec fn numbered(&self, after: &Self, b: int, n: u64) -> bool {
        &&& after.same_but(self, b)
        &&& after.items(b) == self.items(b)
        &&& after.buckets@[b].header.sequence == n
        &&& after.buckets@[b] == (BucketInner {
            root_node: after.buckets@[b].root_node,
            header: after.buckets@[b].header,
            ..self.buckets@[b]
        })
        &&& after.buckets@[b].header.root == self.buckets@[b].header.root
        &&& after.buckets@[b].root_node is Some
    }

    /// Raises the sequence number of a bucket by one and gives it.
    pub fn next_sequence(&mut self, b: BucketId) -> (r: Result<u64>)
        requires
            old(self).good(),
            old(self).has(b as int),
            old(self).buckets@[b as int].header.sequence < u64::MAX,
        ensures
            final(self).good(),
            forall|list: FreelistV| #[trigger] old(self).sound(list) ==> final(self).sound(list),
            forall|list: FreelistV| #[trigger] old(self).full(list) ==> final(self).full(list),
            match old(self).fixed() {
                Some(e) => r == Err::<u64, Error>(e) && *final(self) == *old(self),
                None => {
                    let n = (old(self).buckets@[b as int].header.sequence + 1) as u64;
                    &&& r == Ok::<u64, Error>(n)
                    &&& old(self).numbered(final(self), b as int, n)
                },
            },
    {
        let n: u64 = self.buckets[b].header.sequence + 1;
        match self.set_sequence(b, n) {
            Ok(_) => Ok(n),
            Err(e) => Err(e),
        }
    }

    /// A bucket that was just opened uses the pages that its element stands for.
    pub proof fn lemma_fresh(base: Base, b: BucketInner, item: InodeV)
        requires
            base.ok(),
            base.item_ok(item),
            is_bucket(item),
            opened_from(b, item),
            b.split_at <= base.page_size,
        ensures
            base.old.contains(b.header.root) || b.header.root == 0 ==> b.ok(base, true),
            forall|p: Pgid| #[trigger] bucket_refs(b, base, p) == item_refs(base, item, p),
            b.opened() == Set::<Key>::empty(),
    {
        let t = b.tree(base);
        assert(b.header.root == root_of(item));
        assert(b.opened() =~= Set::<Key>::empty());
        if b.header.root == 0 {
            let page = inline_page(item.value);
            assert(t == inline_tree(page));
            assert forall|p: Pgid| #[trigger] bucket_refs(b, base, p) == item_refs(base, item, p) by {
                lemma_nested_none(base, decode(page), Set::empty(), p);
            }
        } else {
            assert(base.page_ok(root_of(item)));
            lemma_page_subs(base, t);
            assert forall|p: Pgid| #[trigger] bucket_refs(b, base, p) == item_refs(base, item, p) by {
                lemma_refs_split(t, p);
                lemma_nested_all(base, t.items(), p);
            }
        }
    }

    /// Opening a nested bucket leaves everything consistent.
    proof fn lemma_opened(before: &Self, after: &Self, b: int, name: Vec<u8>, fresh: BucketInner)
        requires
            before.good(),
            before.has(b),
            bucket_at(before.items(b), name@),
            sub_id(before.buckets@[b].subbuckets@, name@) is None,
            opened_from(fresh, at_key(before.items(b), name@)->0),
            fresh.split_at <= before.base@.page_size,
            fresh.parent == b,
            fresh.name@ == name@,
            before.buckets@.len() <= usize::MAX,
            *after == (TxInner { buckets: after.buckets, ..*before }),
            after.buckets@.len() == before.buckets@.len() + 1,
            after.buckets@[before.buckets@.len() as int] == fresh,
            forall|c: int| 0 <= c < before.buckets@.len() && c != b ==> #[trigger] after.buckets@[c] == before.buckets@[c],
            after.buckets@[b] == (BucketInner { subbuckets: after.buckets@[b].subbuckets, ..before.buckets@[b] }),
            after.buckets@[b].subbuckets@.len() == before.buckets@[b].subbuckets@.len() + 1,
            after.buckets@[b].subbuckets@.drop_last() == before.buckets@[b].subbuckets@,
            after.buckets@[b].subbuckets@.last().0@ == name@,
            after.buckets@[b].subbuckets@.last().1 == before.buckets@.len(),
        ensures
            after.good(),
            forall|list: FreelistV| #[trigger] before.sound(list) ==> after.sound(list),
            forall|list: FreelistV| #[trigger] before.full(list) ==> after.full(list),
    {
        let bs = before.buckets@;
        let cs = after.buckets@;
        let base = before.base@;
        let n = bs.len() as int;
        let item = at_key(before.items(b), name@)->0;
        bs[b].lemma_items(base, true);
        let s = bs[b].items(base);
        lemma_pos(s, name@);
        assert(base.item_ok(s[pos(s, name@)]));
        Self::lemma_fresh(base, fresh, item);
        let i0 = lemma_sub_id(bs[b].subbuckets@, name@);
        let ds = bs.update(b, cs[b]);
        assert(cs =~= ds.push(fresh));
        assert forall|c: int| #[trigger] after.has(c) implies cs[c].ok(base, true) by {
            if c < n {
                assert(before.has(c));
            }
        }
        let old_subs = bs[b].subbuckets@;
        let new_subs = cs[b].subbuckets@;
        assert forall|j: int| 0 <= j < old_subs.len() implies #[trigger] new_subs[j] == old_subs[j] by {
            assert(new_subs.drop_last()[j] == old_subs[j]);
        }
        assert forall|d: int| #![trigger cs[d]] 0 <= d < cs.len() && cs[d].live implies subs_linked(cs, base, d) by {
            if d < n {
                assert(bs[d].live);
                assert(subs_linked(bs, base, d));
                assert forall|i: int| 0 <= i < cs[d].subbuckets@.len() implies {
                    let c = (#[trigger] cs[d].subbuckets@[i]).1;
                    &&& d < c < cs.len()
                    &&& cs[c as int].live
                    &&& cs[c as int].parent == d
                    &&& cs[c as int].name@ == cs[d].subbuckets@[i].0@
                    &&& bucket_at(cs[d].items(base), cs[d].subbuckets@[i].0@)
                    &&& as_stored(cs[c as int], at_key(cs[d].items(base), cs[d].subbuckets@[i].0@)->0)
                } by {
                    if d == b && i == old_subs.len() {
                    } else {
                        assert(cs[d].subbuckets@[i] == bs[d].subbuckets@[i]);
                        assert(bucket_at(bs[d].items(base), bs[d].subbuckets@[i].0@));
                        assert(bs[d].subbuckets@[i].1 < n);
                    }
                }
                assert forall|i: int, j: int| 0 <= i < j < cs[d].subbuckets@.len() implies (#[trigger] cs[d].subbuckets@[i]).0@
                    != (#[trigger] cs[d].subbuckets@[j]).0@ by {
                    if d == b {
                        assert(old_subs[i].0@ != name@);
                        if j < old_subs.len() {
                            assert(old_subs[i].0@ != old_subs[j].0@);
                        }
                    } else {
                        assert(bs[d].subbuckets@[i].0@ != bs[d].subbuckets@[j].0@);
                    }
                }
            }
        }
        assert forall|c: int| #![trigger cs[c]] 0 < c < cs.len() && cs[c].live implies known(cs, c) by {
            if c < n {
                assert(bs[c].live);
                assert(known(bs, c));
                let q = bs[c].parent as int;
                let i = choose|i: int| 0 <= i < bs[q].subbuckets@.len() && (#[trigger] bs[q].subbuckets@[i]).1 == c;
                assert(cs[q].subbuckets@[i].1 == c);
            } else {
                assert(new_subs[old_subs.len() as int].1 == c);
                assert(cs[cs[c].parent as int].subbuckets@[old_subs.len() as int].1 == c);
            }
        }
        assert(cs[b].opened() =~= bs[b].opened().insert(name@)) by {
            assert forall|k: Key| cs[b].opened().contains(k) <==> bs[b].opened().insert(name@).contains(k) by {
                if cs[b].opened().contains(k) {
                    let i = choose|i: int| 0 <= i < new_subs.len() && (#[trigger] new_subs[i]).0@ == k;
                    if i < old_subs.len() {
                        assert(old_subs[i].0@ == k);
                    }
                }
                if bs[b].opened().contains(k) {
                    let i = choose|i: int| 0 <= i < old_subs.len() && (#[trigger] old_subs[i]).0@ == k;
                    assert(new_subs[i].0@ == k);
                }
                if k == name@ {
                    assert(new_subs[old_subs.len() as int].0@ == k);
                }
            }
        }
        assert(!bs[b].opened().contains(name@));
        assert forall|p: Pgid| #[trigger] total(cs, base, p) == total(bs, base, p) by {
            lemma_total_update(bs, b, cs[b], base, p);
            lemma_total_push(ds, fresh, base, p);
            lemma_nested_but(base, s, name@, bs[b].opened(), p);
            assert(bucket_refs(fresh, base, p) == item_refs(base, item, p));
            assert(cs[b].tree(base) == bs[b].tree(base));
        }
        Self::lemma_same_total(before, after);
    }

    /// The open bucket of a name in bucket `b`.
    pub fn find_open(&self, b: BucketId, name: &[u8]) -> (r: Option<BucketId>)
        requires
            b < self.buckets@.len(),
        ensures
            r == sub_id(self.buckets@[b as int].subbuckets@, name@),
    {
        let subs = &self.buckets[b].subbuckets;
        let mut i: usize = subs.len();
        assert(subs@.take(i as int) =~= subs@);
        while i > 0
            invariant
                b < self.buckets@.len(),
                *subs == self.buckets@[b as int].subbuckets,
                i <= subs@.len(),
                sub_id(subs@.take(i as int), name@) == sub_id(subs@, name@),
            decreases i,
        {
            i = i - 1;
            assert(subs@.take(i + 1).drop_last() =~= subs@.take(i as int));
            if key_equal(subs[i].0.as_slice(), name) {
                return Some(subs[i].1);
            }
        }
        None
    }

    /// The nested bucket of a name is open in `after`. What it was not open before is changed
    /// only by that.
    pub open spec fn opened_in(&self, after: &Self, b: int, name: Key, c: BucketId) -> bool {
        &&& sub_id(after.buckets@[b].subbuckets@, name) == Some(c)
        &&& after.has(c as int)
        &&& match sub_id(self.buckets@[b].subbuckets@, name) {
            Some(d) => c == d && *after == *self,
            None => {
                &&& c == self.buckets@.len()
                &&& *after == (TxInner { buckets: after.buckets, ..*self })
                &&& after.buckets@.len() == self.buckets@.len() + 1
                &&& opened_from(after.buckets@[c as int], at_key(self.items(b), name)->0)
                &&& after.buckets@[c as int].parent == b
                &&& after.buckets@[c as int].name@ == name
                &&& after.buckets@[c as int].split_at == default_split(self.pages.page_size as int)
                &&& after.buckets@[c as int].merge_at == default_merge(self.pages.page_size as int)
                &&& forall|d: int|
                    0 <= d < self.buckets@.len() && d != b ==> #[trigger] after.buckets@[d] == self.buckets@[d]
                &&& after.buckets@[b] == (BucketInner { subbuckets: after.buckets@[b].subbuckets, ..self.buckets@[b] })
                &&& after.buckets@[b].subbuckets@.drop_last() == self.buckets@[b].subbuckets@
                &&& after.buckets@[b].subbuckets@.len() == self.buckets@[b].subbuckets@.len() + 1
                &&& after.buckets@[b].subbuckets@.last().0@ == name
                &&& after.buckets@[b].subbuckets@.last().1 == c
            },
        }
    }

    /// Opens the nested bucket of a name.
    pub fn bucket_by_name(&mut self, b: BucketId, name: &[u8]) -> (r: Result<Option<BucketId>>)
        requires
            old(self).good(),
            old(self).has(b as int),
        ensures
            final(self).good(),
            forall|list: FreelistV| #[trigger] old(self).sound(list) ==> final(self).sound(list),
            forall|list: FreelistV| #[trigger] old(self).full(list) ==> final(self).full(list),
            match old(self).shut() {
                Some(e) => r == Err::<Option<BucketId>, Error>(e) && *final(self) == *old(self),
                None => if bucket_at(old(self).items(b as int), name@) {
                    r matches Ok(Some(c)) && old(self).opened_in(final(self), b as int, name@, c)
                } else {
                    r == Ok::<Option<BucketId>, Error>(None) && *final(self) == *old(self)
                },
            },
    {
        if self.closed || !self.opened {
            return Err(Error::TxClosed);
        }
        let ghost before = *self;
        proof {
            assert(subs_linked(self.buckets@, self.base@, b as int));
            let i = lemma_sub_id(self.buckets@[b as int].subbuckets@, name@);
            if sub_id(self.buckets@[b as int].subbuckets@, name@) is Some {
                assert(self.buckets@[b as int].subbuckets@[i].0@ == name@);
            }
        }
        match self.find_open(b, name) {
            Some(c) => {
                return Ok(Some(c));
            },
            None => {},
        }
        let item: Inode = match self.buckets[b].find(&self.pages, name, self.base, Ghost(true)) {
            Some(item) => item,
            None => {
                return Ok(None);
            },
        };
        if item.flags & BUCKET_LEAF_FLAG == 0 {
            return Ok(None);
        }
        proof {
            before.buckets@[b as int].lemma_items(before.base@, true);
            let s = before.items(b as int);
            lemma_pos(s, name@);
            assert(before.base@.item_ok(s[pos(s, name@)]));
        }
        let header = InBucket::read(item.value.as_slice());
        let page: Option<Vec<u8>> = if header.root == 0 {
            let n: usize = item.value.len();
            let ghost v = item.value@;
            assert(v.subrange(16, n as int) =~= inline_page(v));
            Some(slice_to_vec(&item.value.as_slice()[16..n]))
        } else {
            None
        };
        let c: BucketId = self.buckets.len();
        let fresh = BucketInner {
            header,
            root_node: None,
            inline_page: page,
            subbuckets: Vec::new(),
            live: true,
            parent: b,
            name: slice_to_vec(name),
            split_at: self.pages.page_size / 2,
            merge_at: self.pages.page_size / 4,
        };
        let ghost g = fresh;
        self.buckets.push(fresh);
        self.buckets[b].subbuckets.push((slice_to_vec(name), c));
        proof {
            let subs = self.buckets@[b as int].subbuckets@;
            assert(subs.drop_last() =~= before.buckets@[b as int].subbuckets@);
            Self::lemma_opened(&before, &*self, b as int, g.name, g);
        }
        Ok(Some(c))
    }

    /// Why a bucket is not created.
    pub open spec fn create_refused(&self, b: int, name: Key) -> Option<Error> {
        if self.fixed() is Some {
            self.fixed()
        } else if name.len() == 0 {
            Some(Error::BucketNameRequired)
        } else if name.len() > MAX_KEY_SIZE {
            Some(Error::KeyTooLarge)
        } else if bucket_at(self.items(b), name) {
            Some(Error::BucketExists)
        } else if at_key(self.items(b), name) is Some {
            Some(Error::IncompatibleValue)
        } else {
            None
        }
    }

    /// In `after` there is a new bucket, open and empty, under a name in bucket `b`.
    pub open spec fn created(&self, after: &Self, b: int, name: Key, c: BucketId) -> bool {
        let item = at_key(after.items(b), name)->0;
        &&& c == self.buckets@.len()
        &&& *after == (TxInner { buckets: after.buckets, ..*self })
        &&& after.buckets@.len() == self.buckets@.len() + 1
        &&& sub_id(after.buckets@[b].subbuckets@, name) == Some(c)
        &&& after.has(c as int)
        &&& after.items(c as int).len() == 0
        &&& after.buckets@[c as int].header == (InBucket { root: 0, sequence: 0 })
        &&& after.buckets@[c as int].parent == b
        &&& after.buckets@[c as int].name@ == name
        &&& after.buckets@[c as int].subbuckets@.len() == 0
        &&& after.buckets@[c as int].split_at == default_split(self.pages.page_size as int)
        &&& after.buckets@[c as int].merge_at == default_merge(self.pages.page_size as int)
        &&& item.key == name
        &&& item.flags == BUCKET_LEAF_FLAG
        &&& empty_bucket(item.value)
        &&& after.items(b) == with_item(self.items(b), item)
        &&& forall|d: int| 0 <= d < self.buckets@.len() && d != b ==> #[trigger] after.buckets@[d] == self.buckets@[d]
        &&& after.buckets@[b] == (BucketInner {
            root_node: after.buckets@[b].root_node,
            inline_page: after.buckets@[b].inline_page,
            subbuckets: after.buckets@[b].subbuckets,
            ..self.buckets@[b]
        })
        &&& after.buckets@[b].inline_page is None
        &&& after.buckets@[b].subbuckets@.drop_last() == self.buckets@[b].subbuckets@
        &&& after.buckets@[b].subbuckets@.len() == self.buckets@[b].subbuckets@.len() + 1
        &&& after.buckets@[b].subbuckets@.last().0@ == name
        &&& after.buckets@[b].subbuckets@.last().1 == c
    }

    /// Creates a nested bucket.
    pub fn create_bucket(&mut self, b: BucketId, name: &[u8]) -> (r: Result<BucketId>)
        requires
            old(self).good(),
            old(self).has(b as int),
        ensures
            final(self).good(),
            forall|list: FreelistV| #[trigger] old(self).sound(list) ==> final(self).sound(list),
            forall|list: FreelistV| #[trigger] old(self).full(list) ==> final(self).full(list),
            match old(self).create_refused(b as int, name@) {
                Some(e) => r == Err::<BucketId, Error>(e) && *final(self) == *old(self),
                None => {
                    &&& r matches Ok(c) && old(self).created(final(self), b as int, name@, c)
                    &&& edits_bucket(
                        old(self).buckets@[b as int],
                        final(self).buckets@[b as int],
                        old(self).base@,
                        Edit::Put { item: at_key(final(self).items(b as int), name@)->0 },
                    )
                },
            },
    {
        if self.closed || !self.opened {
            return Err(Error::TxClosed);
        }
        if !self.writable {
            return Err(Error::TxNotWritable);
        }
        if name.len() == 0 {
            return Err(Error::BucketNameRequired);
        }
        if name.len() > MAX_KEY_SIZE {
            return Err(Error::KeyTooLarge);
        }
        match self.buckets[b].find(&self.pages, name, self.base, Ghost(true)) {
            Some(item) => {
                if item.flags & BUCKET_LEAF_FLAG != 0 {
                    return Err(Error::BucketExists);
                }
                return Err(Error::IncompatibleValue);
            },
            None => {},
        }
        let ghost before = *self;
        let item = Inode {
            flags: BUCKET_LEAF_FLAG,
            pgid: 0,
            key: slice_to_vec(name),
            value: empty_inline_bucket_value(),
        };
        let ghost v = item@;
        proof {
            lemma_empty_bucket(v.value);
            assert(1u32 & 1u32 != 0) by (bit_vector);
            assert(is_bucket(v));
            assert(root_of(v) == in_bucket_at(v.value, 0).root);
        }
        self.buckets[b].put(&self.pages, item, self.base, Ghost(true));
        self.buckets[b].inline_page = None;
        proof {
            let base = before.base@;
            before.buckets@[b as int].lemma_items(base, true);
            let s = before.items(b as int);
            lemma_with_item(s, v);
            assert(at_key(with_item(s, v), name@) == Some(v));
            assert forall|k: Key| #[trigger] bucket_at(before.items(b as int), k) implies at_key(
                self.items(b as int),
                k,
            ) == at_key(before.items(b as int), k) by {
                assert(at_key(with_item(s, v), k) == at_key(s, k));
            }
            assert forall|p: Pgid| #[trigger]
                nested(base, self.items(b as int), before.buckets@[b as int].opened(), p) == nested(
                    base,
                    s,
                    before.buckets@[b as int].opened(),
                    p,
                ) by {
                lemma_nested_with(base, s, v, before.buckets@[b as int].opened(), p);
            }
            Self::lemma_changed(&before, &*self, b as int);
            assert(subs_linked(before.buckets@, base, b as int));
            let i = lemma_sub_id(before.buckets@[b as int].subbuckets@, name@);
            if sub_id(before.buckets@[b as int].subbuckets@, name@) is Some {
                assert(bucket_at(s, before.buckets@[b as int].subbuckets@[i].0@));
            }
        }
        match self.bucket_by_name(b, name) {
            Ok(Some(c)) => Ok(c),
            Ok(None) => Err(Error::BucketNotFound),
            Err(e) => Err(e),
        }
    }

    /// Creates a nested bucket, or opens the one that is there.
    pub fn create_bucket_if_not_exists(&mut self, b: BucketId, name: &[u8]) -> (r: Result<BucketId>)
        requires
            old(self).good(),
            old(self).has(b as int),
        ensures
            final(self).good(),
            forall|list: FreelistV| #[trigger] old(self).sound(list) ==> final(self).sound(list),
            forall|list: FreelistV| #[trigger] old(self).full(list) ==> final(self).full(list),
            match old(self).create_refused(b as int, name@) {
                Some(Error::BucketExists) => r matches Ok(c) && old(self).opened_in(final(self), b as int, name@, c),
                Some(e) => r == Err::<BucketId, Error>(e) && *final(self) == *old(self),
                None => {
                    &&& r matches Ok(c) && old(self).created(final(self), b as int, name@, c)
                    &&& edits_bucket(
                        old(self).buckets@[b as int],
                        final(self).buckets@[b as int],
                        old(self).base@,
                        Edit::Put { item: at_key(final(self).items(b as int), name@)->0 },
                    )
                },
            },
    {
        match self.create_bucket(b, name) {
            Ok(c) => Ok(c),
            Err(Error::BucketExists) => match self.bucket_by_name(b, name) {
                Ok(Some(c)) => Ok(c),
                Ok(None) => Err(Error::BucketExists),
                Err(e) => Err(e),
            },
            Err(e) => Err(e),
        }
    }
}

} // verus!
