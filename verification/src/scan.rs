//! A cursor over one bucket of a transaction.
use vstd::prelude::*;
use vstd::slice::slice_to_vec;
use crate::bucket::BucketId;
use crate::cursor::{first_spot, has_next, last_spot, next_spot, nothing, prev_spot, shown, Kv};
use crate::error::{Error, Result};
use crate::freelist::FreelistV;
use crate::inode::{decode, elem_ok, leaf_at, InodeV};
use crate::leaves::flat;
use crate::order::less;
use crate::page::{BUCKET_LEAF_FLAG, PageHeader, Pgid};
use crate::path::{lemma_path_same, ElemRef};
use crate::terms::lemma_odd_flags;
use crate::tree::{in_order, is_bucket, lemma_pos, pos, without_key, Key};
use crate::tx::{bucket_at, opt_view, TxInner};

verus! {

/// A key, and its value unless it has a nested bucket.
pub type KeyValue = (Option<Vec<u8>>, Option<Vec<u8>>);

/// What a [`KeyValue`] holds.
pub open spec fn pair_view(kv: KeyValue) -> (Option<Seq<u8>>, Option<Seq<u8>>) {
    (opt_view(kv.0), opt_view(kv.1))
}

/// The key and the value of what a cursor shows.
pub open spec fn pair_of(kv: (Option<Seq<u8>>, Option<Seq<u8>>, u32)) -> (Option<Seq<u8>>, Option<Seq<u8>>) {
    (kv.0, kv.1)
}

/// A cursor over a bucket. It is of use only while the transaction is open.
pub struct Cursor {
    pub bucket: BucketId,
    /// The path to where the cursor is; empty before it is anywhere.
    pub stack: Vec<ElemRef>,
    /// The leaf page that is being gone through, or zero, the number of its elements, and the one
    /// that the cursor is at.
    pub leaf_pgid: Pgid,
    pub leaf_count: usize,
    pub leaf_index: usize,
    /// A copy of the key and the value that the cursor is at.
    pub key_buf: Vec<u8>,
    pub val_buf: Vec<u8>,
    pub val_is_bucket: bool,
    pub view_valid: bool,
}

/// Hides what the value of a nested bucket holds.
pub fn hide_bucket(kv: Kv) -> (r: KeyValue)
    ensures
        pair_view(r) == (if kv.2 & BUCKET_LEAF_FLAG != 0 {
            (opt_view(kv.0), None)
        } else {
            (opt_view(kv.0), opt_view(kv.1))
        }),
{
    if kv.2 & BUCKET_LEAF_FLAG != 0 {
        (kv.0, None)
    } else {
        (kv.0, kv.1)
    }
}

impl Cursor {
    /// The cursor belongs to the transaction.
    pub open spec fn fit(&self, tx: &TxInner) -> bool {
        &&& tx.good()
        &&& tx.has(self.bucket as int)
        &&& tx.placed(self.bucket as int, self.stack@)
        &&& self.leaf_pgid != 0 ==> {
            &&& tx.base@.old.contains(self.leaf_pgid)
            &&& tx.base@.forest[self.leaf_pgid] is Leaf
            &&& self.leaf_count == tx.base@.forest[self.leaf_pgid].items().len()
        }
    }

    /// The key and the value that the cursor holds a copy of.
    pub open spec fn held(&self) -> (Option<Seq<u8>>, Option<Seq<u8>>) {
        if self.view_valid {
            (
                Some(self.key_buf@),
                if self.val_is_bucket {
                    None
                } else {
                    Some(self.val_buf@)
                },
            )
        } else {
            (None, None)
        }
    }

    /// All but the path is as it was.
    pub open spec fn same_but_path(&self, other: &Self) -> bool {
        *self == (Cursor { stack: self.stack, ..*other })
    }

    /// A cursor that is nowhere yet.
    pub fn new(bucket: BucketId) -> (c: Self)
        ensures
            c.bucket == bucket,
            c.stack@.len() == 0,
            c.leaf_pgid == 0,
            !c.view_valid,
    {
        Cursor {
            bucket,
            stack: Vec::new(),
            leaf_pgid: 0,
            leaf_count: 0,
            leaf_index: 0,
            key_buf: Vec::new(),
            val_buf: Vec::new(),
            val_is_bucket: false,
            view_valid: false,
        }
    }

    /// The bucket that the cursor goes through.
    pub fn bucket(&self) -> (b: BucketId)
        ensures
            b == self.bucket,
    {
        self.bucket
    }

    /// Goes to the first key.
    pub fn first(&mut self, tx: &TxInner) -> (r: Result<KeyValue>)
        requires
            old(self).fit(tx),
        ensures
            final(self).fit(tx),
            final(self).same_but_path(old(self)),
            match tx.shut() {
                Some(e) => r == Err::<KeyValue, Error>(e) && final(self).stack@ == old(self).stack@,
                None => {
                    let b = old(self).bucket as int;
                    &&& final(self).stack@.len() > 0
                    &&& tx.spot(b, final(self).stack@) == first_spot(tx.cur(b), tx.mem(b))
                    &&& r matches Ok(kv) && pair_view(kv) == pair_of(shown(tx.items(b), 0))
                },
            },
    {
        match tx.cursor_first(self.bucket, &mut self.stack) {
            Ok(kv) => Ok(hide_bucket(kv)),
            Err(e) => Err(e),
        }
    }

    /// Goes to the last key.
    pub fn last(&mut self, tx: &TxInner) -> (r: Result<KeyValue>)
        requires
            old(self).fit(tx),
        ensures
            final(self).fit(tx),
            final(self).same_but_path(old(self)),
            match tx.shut() {
                Some(e) => r == Err::<KeyValue, Error>(e) && final(self).stack@ == old(self).stack@,
                None => {
                    let b = old(self).bucket as int;
                    &&& final(self).stack@.len() > 0
                    &&& tx.spot(b, final(self).stack@) == last_spot(tx.cur(b), tx.mem(b))
                    &&& r matches Ok(kv) && pair_view(kv) == pair_of(shown(tx.items(b), tx.items(b).len() - 1))
                },
            },
    {
        match tx.cursor_last(self.bucket, &mut self.stack) {
            Ok(kv) => Ok(hide_bucket(kv)),
            Err(e) => Err(e),
        }
    }

    /// Goes to the next key.
    pub fn next(&mut self, tx: &TxInner) -> (r: Result<KeyValue>)
        requires
            old(self).fit(tx),
        ensures
            final(self).fit(tx),
            final(self).same_but_path(old(self)),
            match tx.shut() {
                Some(e) => r == Err::<KeyValue, Error>(e) && final(self).stack@ == old(self).stack@,
                None => {
                    let b = old(self).bucket as int;
                    let s0 = old(self).stack@;
                    if s0.len() == 0 {
                        &&& r matches Ok(kv) && pair_view(kv) == pair_of(nothing())
                        &&& final(self).stack@ == s0
                    } else if tx.missing(b, s0) {
                        &&& r matches Err(Error::Corrupt(text)) && text@ == "inline missing"@
                        &&& final(self).stack@ == s0
                    } else {
                        let s = tx.spot(b, s0);
                        let n = tx.seen(b, s).len() as int;
                        let z = tx.spot(b, final(self).stack@);
                        &&& final(self).stack@.len() > 0
                        &&& z == next_spot(tx.cur(b), tx.mem(b), n, s)
                        &&& r matches Ok(kv) && pair_view(kv) == pair_of(
                            if has_next(tx.cur(b), n, s) {
                                shown(tx.seen(b, z), z.index)
                            } else {
                                nothing()
                            },
                        )
                    }
                },
            },
    {
        if tx.closed || !tx.opened {
            return Err(Error::TxClosed);
        }
        match tx.cursor_next(self.bucket, &mut self.stack) {
            Ok(kv) => Ok(hide_bucket(kv)),
            Err(e) => Err(e),
        }
    }

    /// Goes to the key before.
    pub fn prev(&mut self, tx: &TxInner) -> (r: Result<KeyValue>)
        requires
            old(self).fit(tx),
        ensures
            final(self).fit(tx),
            final(self).same_but_path(old(self)),
            match tx.shut() {
                Some(e) => r == Err::<KeyValue, Error>(e) && final(self).stack@ == old(self).stack@,
                None => {
                    let b = old(self).bucket as int;
                    let s0 = old(self).stack@;
                    if s0.len() == 0 {
                        &&& r matches Ok(kv) && pair_view(kv) == pair_of(nothing())
                        &&& final(self).stack@ == s0
                    } else if tx.missing(b, s0) && s0.last().index > 0 {
                        &&& r matches Err(Error::Corrupt(text)) && text@ == "inline missing"@
                        &&& final(self).stack@ == s0
                    } else {
                        let s = tx.spot(b, s0);
                        let z = tx.spot(b, final(self).stack@);
                        &&& final(self).stack@.len() > 0
                        &&& z == prev_spot(tx.cur(b), tx.mem(b), s)
                        &&& r matches Ok(kv) && pair_view(kv) == pair_of(
                            if s.index == 0 && s.leaf == 0 {
                                nothing()
                            } else {
                                shown(tx.seen(b, z), z.index)
                            },
                        )
                    }
                },
            },
    {
        if tx.closed || !tx.opened {
            return Err(Error::TxClosed);
        }
        match tx.cursor_prev(self.bucket, &mut self.stack) {
            Ok(kv) => Ok(hide_bucket(kv)),
            Err(e) => Err(e),
        }
    }

    /// Goes to a key, or where it is not there to the next one.
    pub fn seek(&mut self, tx: &TxInner, key: &[u8]) -> (r: Result<KeyValue>)
        requires
            old(self).fit(tx),
        ensures
            final(self).fit(tx),
            final(self).same_but_path(old(self)),
            match tx.shut() {
                Some(e) => r == Err::<KeyValue, Error>(e) && final(self).stack@ == old(self).stack@,
                None => {
                    let b = old(self).bucket as int;
                    let g = pos(tx.items(b), key@);
                    &&& final(self).stack@.len() > 0
                    &&& r matches Ok(kv) && pair_view(kv) == pair_of(shown(tx.items(b), g))
                    &&& g < tx.items(b).len() ==> tx.at_item(b, tx.spot(b, final(self).stack@), g)
                },
            },
    {
        match tx.cursor_seek_may_next(self.bucket, &mut self.stack, key) {
            Ok(kv) => Ok(hide_bucket(kv)),
            Err(e) => Err(e),
        }
    }

    /// Deletes the key that the cursor is at.
    pub fn delete(&mut self, tx: &mut TxInner) -> (r: Result<()>)
        requires
            old(self).fit(old(tx)),
            !old(tx).missing(old(self).bucket as int, old(self).stack@) && old(self).stack@.len() > 0 ==> ({
                let b = old(self).bucket as int;
                let s = old(tx).spot(b, old(self).stack@);
                shown(old(tx).seen(b, s), s.index).0 matches Some(key) ==> is_bucket(old(tx).seen(b, s)[s.index])
                    || !bucket_at(old(tx).items(b), key)
            }),
        ensures
            *final(self) == *old(self),
            final(tx).good(),
            forall|list: FreelistV| #[trigger] old(tx).sound(list) ==> final(tx).sound(list),
            match old(tx).fixed() {
                Some(e) => r == Err::<(), Error>(e) && *final(tx) == *old(tx),
                None => {
                    let b = old(self).bucket as int;
                    let s0 = old(self).stack@;
                    let s = old(tx).spot(b, s0);
                    let kv = shown(old(tx).seen(b, s), s.index);
                    if s0.len() == 0 {
                        r is Ok && *final(tx) == *old(tx)
                    } else if old(tx).missing(b, s0) {
                        &&& r matches Err(Error::Corrupt(text)) && text@ == "inline missing"@
                        &&& *final(tx) == *old(tx)
                    } else if kv.2 & BUCKET_LEAF_FLAG != 0 {
                        r == Err::<(), Error>(Error::IncompatibleValue) && *final(tx) == *old(tx)
                    } else {
                        &&& r is Ok
                        &&& match kv.0 {
                            Some(key) => {
                                &&& final(tx).same_but(old(tx), b)
                                &&& final(tx).buckets@[b].same_but_root(old(tx).buckets@[b])
                                &&& final(tx).items(b) == without_key(old(tx).items(b), key)
                            },
                            None => *final(tx) == *old(tx),
                        }
                    }
                },
            },
    {
        if tx.closed || !tx.opened {
            return Err(Error::TxClosed);
        }
        if !tx.writable {
            return Err(Error::TxNotWritable);
        }
        let kv: Kv = match tx.key_value(self.bucket, &self.stack) {
            Ok(kv) => kv,
            Err(e) => {
                return Err(e);
            },
        };
        assert(0u32 & BUCKET_LEAF_FLAG == 0) by (bit_vector);
        if kv.2 & BUCKET_LEAF_FLAG != 0 {
            return Err(Error::IncompatibleValue);
        }
        match kv.0 {
            None => Ok(()),
            Some(key) => tx.delete(self.bucket, key.as_slice()),
        }
    }

    // -----------------------------------------------------------------------------------------
    // Views: the cursor keeps a copy of the key and the value that it is at.

    /// The key that the cursor holds a copy of.
    pub fn key(&self) -> (r: Option<&[u8]>)
        ensures
            match self.held().0 {
                Some(k) => r is Some && r->0@ == k,
                None => r is None,
            },
    {
        if self.view_valid {
            Some(self.key_buf.as_slice())
        } else {
            None
        }
    }

    /// The value that the cursor holds a copy of. A nested bucket has none.
    pub fn value(&self) -> (r: Option<&[u8]>)
        ensures
            match self.held().1 {
                Some(v) => r is Some && r->0@ == v,
                None => r is None,
            },
    {
        if !self.view_valid || self.val_is_bucket {
            None
        } else {
            Some(self.val_buf.as_slice())
        }
    }

    fn clear_view(&mut self)
        ensures
            final(self).held() == (None::<Seq<u8>>, None::<Seq<u8>>),
            final(self).leaf_pgid == 0,
            final(self).bucket == old(self).bucket,
            final(self).stack == old(self).stack,
    {
        self.view_valid = false;
        self.key_buf.clear();
        self.val_buf.clear();
        self.val_is_bucket = false;
        self.leaf_pgid = 0;
        self.leaf_count = 0;
        self.leaf_index = 0;
    }

    fn apply_owned(&mut self, flags: u32, key: Vec<u8>, val: Vec<u8>)
        ensures
            final(self).held() == (
                Some(key@),
                if flags & BUCKET_LEAF_FLAG != 0 {
                    None
                } else {
                    Some(val@)
                },
            ),
            *final(self) == (Cursor {
                key_buf: final(self).key_buf,
                val_buf: final(self).val_buf,
                val_is_bucket: final(self).val_is_bucket,
                view_valid: final(self).view_valid,
                ..*old(self)
            }),
    {
        self.key_buf = key;
        self.val_is_bucket = flags & BUCKET_LEAF_FLAG != 0;
        if self.val_is_bucket {
            self.val_buf.clear();
        } else {
            self.val_buf = val;
        }
        self.view_valid = true;
    }

    /// Remembers the leaf page that the cursor is on, unless the leaf is in memory or inline.
    fn cache_leaf_from_stack(&mut self, tx: &TxInner)
        requires
            old(self).fit(tx),
        ensures
            final(self).fit(tx),
            *final(self) == (Cursor {
                leaf_pgid: final(self).leaf_pgid,
                leaf_count: final(self).leaf_count,
                leaf_index: final(self).leaf_index,
                ..*old(self)
            }),
            final(self).cached(tx),
    {
        self.leaf_pgid = 0;
        self.leaf_count = 0;
        self.leaf_index = 0;
        if self.stack.len() == 0 {
            return;
        }
        let r: ElemRef = self.stack[self.stack.len() - 1];
        if r.in_memory || r.pgid == 0 {
            return;
        }
        proof {
            tx.lemma_spot(self.bucket as int, self.stack@);
            assert(tx.base@.page_ok(r.pgid));
        }
        let page: &[u8] = tx.pages.page(r.pgid);
        let hdr = PageHeader::read(page);
        self.leaf_pgid = r.pgid;
        self.leaf_count = hdr.count as usize;
        self.leaf_index = r.index;
    }

    /// What is remembered of the leaf that the cursor is on.
    pub open spec fn cached(&self, tx: &TxInner) -> bool {
        if self.stack@.len() == 0 || self.stack@.last().in_memory || self.stack@.last().pgid == 0 {
            self.leaf_pgid == 0
        } else {
            self.leaf_pgid == self.stack@.last().pgid && self.leaf_index == self.stack@.last().index
        }
    }

    /// Takes a copy of the key and the value that the cursor is at.
    fn bind_current_view(&mut self, tx: &TxInner) -> (r: Result<bool>)
        requires
            old(self).fit(tx),
            old(self).stack@.len() > 0,
            !tx.missing(old(self).bucket as int, old(self).stack@),
        ensures
            final(self).fit(tx),
            final(self).bucket == old(self).bucket,
            final(self).stack == old(self).stack,
            ({
                let b = old(self).bucket as int;
                let z = tx.spot(b, old(self).stack@);
                let kv = shown(tx.seen(b, z), z.index);
                &&& r == Ok::<bool, Error>(kv.0 is Some)
                &&& final(self).held() == pair_of(kv)
                &&& kv.0 is Some ==> final(self).leaf_pgid == old(self).leaf_pgid && final(self).leaf_index == old(
                    self,
                ).leaf_index && final(self).leaf_count == old(self).leaf_count
                &&& kv.0 is None ==> final(self).leaf_pgid == 0
            }),
    {
        match tx.key_value(self.bucket, &self.stack) {
            Err(e) => Err(e),
            Ok(kv) => {
                match kv.0 {
                    None => {
                        self.clear_view();
                        Ok(false)
                    },
                    Some(key) => {
                        let val: Vec<u8> = match kv.1 {
                            Some(v) => v,
                            None => Vec::new(),
                        };
                        self.apply_owned(kv.2, key, val);
                        Ok(true)
                    },
                }
            },
        }
    }

    /// Takes a copy of what is at a place that was just gone to, if there is anything.
    fn show(&mut self, tx: &TxInner, found: bool) -> (r: Result<bool>)
        requires
            old(self).fit(tx),
            old(self).stack@.len() > 0,
            found ==> !tx.missing(old(self).bucket as int, old(self).stack@),
        ensures
            final(self).fit(tx),
            final(self).bucket == old(self).bucket,
            final(self).stack == old(self).stack,
            ({
                let b = old(self).bucket as int;
                let z = tx.spot(b, old(self).stack@);
                let kv = if found { shown(tx.seen(b, z), z.index) } else { nothing() };
                &&& r == Ok::<bool, Error>(kv.0 is Some)
                &&& final(self).held() == pair_of(kv)
                &&& if kv.0 is Some { final(self).cached(tx) } else { final(self).leaf_pgid == 0 }
            }),
    {
        if !found {
            self.clear_view();
            return Ok(false);
        }
        self.cache_leaf_from_stack(tx);
        self.bind_current_view(tx)
    }

    /// The cursor has gone to the first key, if there is one, and keeps a copy of it.
    pub open spec fn first_viewed(&self, after: &Self, tx: &TxInner, r: Result<bool>) -> bool {
        match tx.shut() {
            Some(e) => r == Err::<bool, Error>(e) && *after == *self,
            None => {
                let b = self.bucket as int;
                let kv = shown(tx.items(b), 0);
                &&& after.bucket == b
                &&& after.stack@.len() > 0
                &&& tx.spot(b, after.stack@) == first_spot(tx.cur(b), tx.mem(b))
                &&& r == Ok::<bool, Error>(kv.0 is Some)
                &&& after.held() == pair_of(kv)
                &&& if kv.0 is Some { after.cached(tx) } else { after.leaf_pgid == 0 }
            },
        }
    }

    /// The cursor has gone to the next key, if there is one, and keeps a copy of it.
    pub open spec fn next_viewed(&self, after: &Self, tx: &TxInner, r: Result<bool>) -> bool {
        if self.leaf_pgid != 0 && self.leaf_index + 1 < self.leaf_count {
            let i = self.leaf_index + 1;
            &&& r == Ok::<bool, Error>(true)
            &&& after.held() == pair_of(shown(tx.base@.forest[self.leaf_pgid].items(), i))
            &&& after.leaf_pgid == self.leaf_pgid
            &&& after.leaf_count == self.leaf_count
            &&& after.leaf_index == i
            &&& after.stack@ == after.resumed()
            &&& after.stack@.len() == self.stack@.len()
            &&& after.stack@ == (Cursor { leaf_index: after.leaf_index, ..*self }).resumed()
        } else {
            let b = self.bucket as int;
            let s0 = self.resumed();
            match tx.shut() {
                Some(e) => {
                    &&& r == Err::<bool, Error>(e)
                    &&& after.stack@ == s0
                    &&& after.same_but_path(self)
                },
                None => if s0.len() == 0 {
                    &&& r == Ok::<bool, Error>(false)
                    &&& after.held() == pair_of(nothing())
                    &&& after.stack@ == s0
                } else if tx.missing(b, s0) {
                    &&& r matches Err(Error::Corrupt(text)) && text@ == "inline missing"@
                    &&& after.stack@ == s0
                    &&& after.same_but_path(self)
                } else {
                    let s = tx.spot(b, s0);
                    let n = tx.seen(b, s).len() as int;
                    let z = tx.spot(b, after.stack@);
                    let kv = if has_next(tx.cur(b), n, s) { shown(tx.seen(b, z), z.index) } else { nothing() };
                    &&& after.stack@.len() > 0
                    &&& z == next_spot(tx.cur(b), tx.mem(b), n, s)
                    &&& r == Ok::<bool, Error>(kv.0 is Some)
                    &&& after.held() == pair_of(kv)
                    &&& if kv.0 is Some { after.cached(tx) } else { after.leaf_pgid == 0 }
                },
            }
        }
    }

    /// Goes to the first key and keeps a copy of it. Says whether there is one.
    pub fn first_view(&mut self, tx: &TxInner) -> (r: Result<bool>)
        requires
            old(self).fit(tx),
        ensures
            final(self).fit(tx),
            old(self).first_viewed(final(self), tx, r),
    {
        if tx.closed || !tx.opened {
            return Err(Error::TxClosed);
        }
        let kv: Kv = match tx.cursor_first(self.bucket, &mut self.stack) {
            Ok(kv) => kv,
            Err(e) => {
                return Err(e);
            },
        };
        proof {
            let b = self.bucket as int;
            tx.lemma_first_shown(b);
            if tx.items(b).len() > 0 {
                tx.lemma_at_item(b, self.stack@, 0);
            }
        }
        self.show(tx, kv.0.is_some())
    }

    /// Goes to a key, or where it is not there to the next one, and keeps a copy of it. Says whether
    /// there is one.
    pub fn seek_view(&mut self, tx: &TxInner, key: &[u8]) -> (r: Result<bool>)
        requires
            old(self).fit(tx),
        ensures
            final(self).fit(tx),
            match tx.shut() {
                Some(e) => r == Err::<bool, Error>(e) && *final(self) == *old(self),
                None => {
                    let b = old(self).bucket as int;
                    let g = pos(tx.items(b), key@);
                    let kv = shown(tx.items(b), g);
                    &&& final(self).bucket == b
                    &&& final(self).stack@.len() > 0
                    &&& r == Ok::<bool, Error>(kv.0 is Some)
                    &&& final(self).held() == pair_of(kv)
                    &&& if kv.0 is Some {
                        final(self).cached(tx) && tx.at_item(b, tx.spot(b, final(self).stack@), g)
                    } else {
                        final(self).leaf_pgid == 0
                    }
                },
            },
    {
        if tx.closed || !tx.opened {
            return Err(Error::TxClosed);
        }
        let kv: Kv = match tx.cursor_seek_may_next(self.bucket, &mut self.stack, key) {
            Ok(kv) => kv,
            Err(e) => {
                return Err(e);
            },
        };
        proof {
            let b = self.bucket as int;
            let z = tx.spot(b, self.stack@);
            let g = pos(tx.items(b), key@);
            if 0 <= g < tx.items(b).len() {
                tx.lemma_at_item(b, self.stack@, g);
            }
        }
        self.show(tx, kv.0.is_some())
    }

    /// Where the view of a cursor goes on from.
    pub open spec fn resumed(&self) -> Seq<ElemRef> {
        if self.leaf_pgid != 0 && self.stack@.len() > 0 {
            self.stack@.update(
                self.stack@.len() - 1,
                ElemRef { index: self.leaf_index, ..self.stack@.last() },
            )
        } else {
            self.stack@
        }
    }

    /// Goes to the next key and keeps a copy of it. Says whether there is one. Inside a leaf page
    /// the cursor goes on even if the transaction was closed meanwhile.
    #[verifier::rlimit(60)]
    pub fn next_view(&mut self, tx: &TxInner) -> (r: Result<bool>)
        requires
            old(self).fit(tx),
        ensures
            final(self).fit(tx),
            final(self).bucket == old(self).bucket,
            old(self).next_viewed(final(self), tx, r),
    {
        if self.leaf_pgid != 0 && self.leaf_index < self.leaf_count && self.leaf_index + 1 < self.leaf_count {
            let i: usize = self.leaf_index + 1;
            self.leaf_index = i;
            let ghost moved = (Cursor { leaf_index: i, ..*old(self) }).resumed();
            assert(self.resumed() == moved);
            self.resume(tx);
            assert(self.stack@ == moved);
            assert(tx.base@.page_ok(self.leaf_pgid));
            let page: &[u8] = tx.pages.page(self.leaf_pgid);
            assert(elem_ok(page@, i as int));
            let (flags, k, v) = leaf_at(page, i);
            proof {
                assert(decode(page@)[i as int].key == k@);
                assert(decode(page@)[i as int].value == v@);
                assert(decode(page@)[i as int].flags == flags);
            }
            self.apply_owned(flags, slice_to_vec(k), slice_to_vec(v));
            assert(self.resumed() =~= self.stack@);
            return Ok(true);
        }
        self.resume(tx);
        if tx.closed || !tx.opened {
            return Err(Error::TxClosed);
        }
        if self.stack.len() == 0 {
            self.clear_view();
            return Ok(false);
        }
        let ghost s0 = self.stack@;
        let kv: Kv = match tx.cursor_next(self.bucket, &mut self.stack) {
            Ok(kv) => kv,
            Err(e) => {
                return Err(e);
            },
        };
        self.show(tx, kv.0.is_some())
    }

    /// Brings the path to the element that is remembered.
    fn resume(&mut self, tx: &TxInner)
        requires
            old(self).fit(tx),
        ensures
            final(self).fit(tx),
            final(self).same_but_path(old(self)),
            final(self).stack@ == old(self).resumed(),
    {
        let n: usize = self.stack.len();
        if self.leaf_pgid != 0 && n > 0 {
            let ghost s0 = self.stack@;
            let last: ElemRef = self.stack[n - 1];
            let index: usize = self.leaf_index;
            self.stack.set(n - 1, ElemRef { pgid: last.pgid, index, in_memory: last.in_memory });
            proof {
                lemma_path_same(tx.buckets@[self.bucket as int].disk(tx.base@), s0, self.stack@, 0);
            }
        }
    }
}

/// What is read of the element at `i`: its key, and its value unless it has a nested bucket, as its
/// odd flags say; and nothing where there is no element.
pub proof fn lemma_pair_shown(items: Seq<InodeV>, i: int)
    ensures
        ({
            let kv = pair_of(shown(items, i));
            &&& 0 <= i < items.len() && items[i].flags % 2 == 0 ==> kv == (Some(items[i].key), Some(items[i].value))
            &&& 0 <= i < items.len() && items[i].flags % 2 == 1 ==> kv == (Some(items[i].key), None::<Seq<u8>>)
            &&& !(0 <= i < items.len()) ==> kv == (None::<Seq<u8>>, None::<Seq<u8>>)
        }),
{
    if 0 <= i < items.len() {
        lemma_odd_flags(items[i]);
    }
}

/// A search goes to the least of the keys that do not come before the one that is sought, and to
/// nothing where all of them do.
pub proof fn lemma_seek_least(items: Seq<InodeV>, key: Key)
    requires
        in_order(items),
    ensures
        match pair_of(shown(items, pos(items, key))).0 {
            Some(k) => {
                &&& exists|i: int| 0 <= i < items.len() && (#[trigger] items[i]).key == k
                &&& !less(k, key)
                &&& forall|j: int|
                    0 <= j < items.len() && !less(#[trigger] items[j].key, key) ==> items[j].key == k || less(
                        k,
                        items[j].key,
                    )
            },
            None => forall|j: int| 0 <= j < items.len() ==> less(#[trigger] items[j].key, key),
        },
{
    lemma_pos(items, key);
    let g = pos(items, key);
    if g < items.len() {
        assert(items[g].key == shown(items, g).0->0);
    }
}

impl<'a> TxInner<'a> {
    /// A cursor that goes to the first key and then from key to key, as long as nothing changes: it
    /// gives each element of the bucket once, in their order, and then nothing.
    #[verifier::spinoff_prover]
    #[verifier::rlimit(30)]
    pub proof fn lemma_walk(
        &self,
        b: int,
        stacks: Seq<Seq<ElemRef>>,
        got: Seq<(Option<Seq<u8>>, Option<Seq<u8>>)>,
        k: int,
    )
        requires
            self.good(),
            self.has(b),
            0 <= k < got.len() <= self.items(b).len() + 1,
            stacks.len() == got.len(),
            forall|j: int| 0 <= j < stacks.len() ==> (#[trigger] stacks[j]).len() > 0 && self.placed(b, stacks[j]),
            self.spot(b, stacks[0]) == first_spot(self.cur(b), self.mem(b)),
            got[0] == pair_of(shown(self.items(b), 0)),
            forall|j: int|
                0 < j < stacks.len() ==> {
                    let s = self.spot(b, stacks[j - 1]);
                    let n = self.seen(b, s).len() as int;
                    let z = self.spot(b, #[trigger] stacks[j]);
                    &&& z == next_spot(self.cur(b), self.mem(b), n, s)
                    &&& got[j] == pair_of(
                        if has_next(self.cur(b), n, s) {
                            shown(self.seen(b, z), z.index)
                        } else {
                            nothing()
                        },
                    )
                },
        ensures
            k < self.items(b).len() ==> self.at_item(b, self.spot(b, stacks[k]), k),
            k < self.items(b).len() ==> got[k].0 == Some(self.items(b)[k].key),
            k < self.items(b).len() && self.items(b)[k].flags % 2 == 0 ==> got[k].1 == Some(self.items(b)[k].value),
            k < self.items(b).len() && self.items(b)[k].flags % 2 == 1 ==> got[k].1 is None,
            k == self.items(b).len() ==> got[k] == (None::<Seq<u8>>, None::<Seq<u8>>),
        decreases k,
    {
        lemma_pair_shown(self.items(b), k);
        if k == 0 {
            self.lemma_first_shown(b);
        } else {
            self.lemma_walk(b, stacks, got, k - 1);
            self.lemma_next_in_order(b, stacks[k - 1], k - 1);
            if k < self.items(b).len() {
                self.lemma_at_item(b, stacks[k], k);
            }
        }
    }

    /// A cursor that goes to the last key and then back from key to key, while no leaf is empty: it
    /// gives each element of the bucket once, the last one first.
    pub proof fn lemma_walk_back(
        &self,
        b: int,
        stacks: Seq<Seq<ElemRef>>,
        got: Seq<(Option<Seq<u8>>, Option<Seq<u8>>)>,
        k: int,
    )
        requires
            self.good(),
            self.has(b),
            0 <= k < got.len() <= self.items(b).len(),
            stacks.len() == got.len(),
            forall|l: int| 0 <= l < self.cur(b).len() ==> (#[trigger] self.cur(b)[l]).len() > 0,
            forall|j: int| 0 <= j < stacks.len() ==> (#[trigger] stacks[j]).len() > 0 && self.placed(b, stacks[j]),
            self.spot(b, stacks[0]) == last_spot(self.cur(b), self.mem(b)),
            got[0] == pair_of(shown(self.items(b), self.items(b).len() - 1)),
            forall|j: int|
                0 < j < stacks.len() ==> {
                    let s = self.spot(b, stacks[j - 1]);
                    let z = self.spot(b, #[trigger] stacks[j]);
                    &&& z == prev_spot(self.cur(b), self.mem(b), s)
                    &&& got[j] == pair_of(
                        if s.index == 0 && s.leaf == 0 {
                            nothing()
                        } else {
                            shown(self.seen(b, z), z.index)
                        },
                    )
                },
        ensures
            ({
                let g = self.items(b).len() - 1 - k;
                let item = self.items(b)[g];
                &&& self.at_item(b, self.spot(b, stacks[k]), g)
                &&& got[k].0 == Some(item.key)
                &&& item.flags % 2 == 0 ==> got[k].1 == Some(item.value)
                &&& item.flags % 2 == 1 ==> got[k].1 is None
            }),
        decreases k,
    {
        let g = self.items(b).len() - 1 - k;
        lemma_pair_shown(self.items(b), g);
        if k == 0 {
            self.lemma_last_shown(b);
        } else {
            self.lemma_walk_back(b, stacks, got, k - 1);
            let from = self.spot(b, stacks[k - 1]);
            if from.index == 0 {
                assert(from.leaf > 0) by {
                    assert(self.cur(b).take(0) =~= Seq::<Seq<InodeV>>::empty());
                    assert(flat(self.cur(b).take(0)).len() == 0);
                }
                assert(self.cur(b)[from.leaf - 1].len() > 0);
            }
            self.lemma_prev_in_order(b, stacks[k - 1], g + 1);
            self.lemma_at_item(b, stacks[k], g);
        }
    }
}

impl Cursor {
    /// The cursor is at element `g` and remembers the leaf that it is on as it has to.
    spec fn views(&self, tx: &TxInner, g: int) -> bool {
        &&& self.fit(tx)
        &&& self.stack@.len() > 0
        &&& tx.at_item(self.bucket as int, tx.spot(self.bucket as int, self.stack@), g)
        &&& self.cached(tx)
    }

    /// One step of a view.
    proof fn lemma_next_viewed(&self, after: &Self, tx: &TxInner, r: Result<bool>, g: int)
        requires
            tx.shut() is None,
            self.views(tx, g),
            after.fit(tx),
            after.bucket == self.bucket,
            self.next_viewed(after, tx, r),
        ensures
            ({
                let items = tx.items(self.bucket as int);
                if g + 1 < items.len() {
                    &&& r == Ok::<bool, Error>(true)
                    &&& after.held() == pair_of(shown(items, g + 1))
                    &&& after.views(tx, g + 1)
                } else {
                    &&& r == Ok::<bool, Error>(false)
                    &&& after.held() == pair_of(nothing())
                }
            }),
    {
        let b = self.bucket as int;
        let z = tx.spot(b, self.stack@);
        let n = self.stack@.len() - 1;
        tx.lemma_at_item(b, self.stack@, g);
        tx.lemma_spot(b, self.stack@);
        tx.lemma_next_in_order(b, self.stack@, g);
        if self.leaf_pgid != 0 && self.leaf_index + 1 < self.leaf_count {
            assert(tx.base@.forest[self.leaf_pgid].items() == tx.seen(b, z));
            assert(after.stack@ =~= self.stack@.update(n, ElemRef { index: after.leaf_index, ..self.stack@.last() }));
            lemma_path_same(tx.buckets@[b].disk(tx.base@), self.stack@, after.stack@, 0);
            assert(tx.at_item(b, tx.spot(b, after.stack@), g + 1));
            tx.lemma_at_item(b, after.stack@, g + 1);
        } else {
            assert(self.resumed() =~= self.stack@);
            assert(!tx.missing(b, self.stack@));
            if g + 1 < tx.items(b).len() {
                tx.lemma_at_item(b, after.stack@, g + 1);
            }
        }
    }

    /// A cursor that keeps copies goes to the first key and then from key to key, as long as nothing
    /// changes: it holds each element of the bucket once, in their order, and then nothing.
    pub proof fn lemma_view_walk(&self, tx: &TxInner, cursors: Seq<Cursor>, answers: Seq<Result<bool>>, k: int)
        requires
            tx.shut() is None,
            self.fit(tx),
            0 <= k < cursors.len() <= tx.items(self.bucket as int).len() + 1,
            cursors.len() == answers.len(),
            forall|j: int|
                0 <= j < cursors.len() ==> (#[trigger] cursors[j]).fit(tx) && cursors[j].bucket == self.bucket,
            self.first_viewed(&cursors[0], tx, answers[0]),
            forall|j: int|
                0 < j < cursors.len() ==> cursors[j - 1].next_viewed(&#[trigger] cursors[j], tx, answers[j]),
        ensures
            ({
                let items = tx.items(self.bucket as int);
                let held = cursors[k].held();
                &&& k < items.len() ==> answers[k] == Ok::<bool, Error>(true) && held.0 == Some(items[k].key)
                &&& k < items.len() && items[k].flags % 2 == 0 ==> held.1 == Some(items[k].value)
                &&& k < items.len() && items[k].flags % 2 == 1 ==> held.1 is None
                &&& k == items.len() ==> answers[k] == Ok::<bool, Error>(false) && held == (
                    None::<Seq<u8>>,
                    None::<Seq<u8>>,
                )
            }),
    {
        self.lemma_view_walk_from(tx, cursors, answers, k);
        lemma_pair_shown(tx.items(self.bucket as int), k);
    }

    proof fn lemma_view_walk_from(&self, tx: &TxInner, cursors: Seq<Cursor>, answers: Seq<Result<bool>>, k: int)
        requires
            tx.shut() is None,
            self.fit(tx),
            0 <= k < cursors.len() <= tx.items(self.bucket as int).len() + 1,
            cursors.len() == answers.len(),
            forall|j: int|
                0 <= j < cursors.len() ==> (#[trigger] cursors[j]).fit(tx) && cursors[j].bucket == self.bucket,
            self.first_viewed(&cursors[0], tx, answers[0]),
            forall|j: int|
                0 < j < cursors.len() ==> cursors[j - 1].next_viewed(&#[trigger] cursors[j], tx, answers[j]),
        ensures
            ({
                let items = tx.items(self.bucket as int);
                &&& cursors[k].held() == pair_of(shown(items, k))
                &&& answers[k] == Ok::<bool, Error>(k < items.len())
                &&& k < items.len() ==> cursors[k].views(tx, k)
            }),
        decreases k,
    {
        let b = self.bucket as int;
        assert(cursors[k].fit(tx));
        if k == 0 {
            tx.lemma_first_shown(b);
        } else {
            self.lemma_view_walk_from(tx, cursors, answers, k - 1);
            assert(cursors[k - 1].next_viewed(&cursors[k], tx, answers[k]));
            cursors[k - 1].lemma_next_viewed(&cursors[k], tx, answers[k], k - 1);
        }
    }
}

} // verus!
