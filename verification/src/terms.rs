//! The terms on which each request is met, in plain words: which requests are refused, and why.
use vstd::prelude::*;
use crate::compact::{copy_refused, StepV};
use crate::contents::Item;
use crate::error::Error;
use crate::inode::InodeV;
use crate::laws::{bucket_in, value_in};
use crate::lifecycle::{begin_refused, begun_meta};
use crate::page::Meta;
use crate::tree::{at_key, has_key, in_order, is_bucket, lemma_pos, pos, Key};
use crate::tx::{bucket_at, default_merge, default_split, value_at, TxInner};

verus! {

/// Some element has the key and a value.
pub open spec fn holds_value(items: Seq<InodeV>, key: Key) -> bool {
    exists|i: int| 0 <= i < items.len() && (#[trigger] items[i]).key == key && items[i].flags % 2 == 0
}

/// Some element has the key and a nested bucket.
pub open spec fn holds_bucket_at(items: Seq<InodeV>, key: Key) -> bool {
    exists|i: int| 0 <= i < items.len() && (#[trigger] items[i]).key == key && items[i].flags % 2 == 1
}

/// An element has a nested bucket if its flags are odd, and a value if they are even.
pub proof fn lemma_odd_flags(item: InodeV)
    ensures
        is_bucket(item) <==> item.flags % 2 == 1,
{
    let f = item.flags;
    assert((f & 1u32 != 0) <==> (f % 2 == 1)) by (bit_vector);
}

/// What the first element with a key tells, is so of every one of them: there is only one.
proof fn lemma_there(items: Seq<InodeV>, key: Key)
    requires
        in_order(items),
    ensures
        bucket_at(items, key) <==> holds_bucket_at(items, key),
        at_key(items, key) is Some <==> holds_bucket_at(items, key) || holds_value(items, key),
        !(holds_bucket_at(items, key) && holds_value(items, key)),
{
    lemma_pos(items, key);
    let g = pos(items, key);
    assert forall|i: int| 0 <= i < items.len() && (#[trigger] items[i]).key == key implies i == g && has_key(items, key) by {
        crate::order::lemma_total(key, key);
    }
    if has_key(items, key) {
        lemma_odd_flags(items[g]);
    }
}

/// A read gives the value of the key, and nothing for a key that is not there or that has a nested
/// bucket.
pub proof fn lemma_get_terms(items: Seq<InodeV>, key: Key)
    requires
        in_order(items),
    ensures
        value_at(items, key) is Some <==> holds_value(items, key),
        forall|i: int|
            0 <= i < items.len() && (#[trigger] items[i]).key == key && items[i].flags % 2 == 0 ==> value_at(items, key)
                == Some(items[i].value),
{
    lemma_there(items, key);
    lemma_pos(items, key);
    let g = pos(items, key);
    assert forall|i: int| 0 <= i < items.len() && (#[trigger] items[i]).key == key implies i == g && has_key(items, key) by {
        crate::order::lemma_total(key, key);
    }
    if has_key(items, key) {
        lemma_odd_flags(items[g]);
    }
}

impl<'a> TxInner<'a> {
    /// The transaction has begun and has not ended.
    pub open spec fn runs(&self) -> bool {
        self.opened && !self.closed
    }

    /// A value is put if and only if the transaction runs and writes, the key has from 1 to 32768
    /// bytes, the value has at most 2147483646, and the key has no nested bucket. Of several
    /// reasons against it the first one in this order is given.
    pub proof fn lemma_put_terms(&self, b: int, key: Key, value: Seq<u8>)
        requires
            self.good(),
            self.has(b),
        ensures
            ({
                let why = self.put_refused(b, key, value);
                let nested = holds_bucket_at(self.items(b), key);
                &&& why is None <==> self.runs() && self.writable && 1 <= key.len() <= 32768 && value.len() <= 2147483646
                    && !nested
                &&& !self.runs() ==> why == Some(Error::TxClosed)
                &&& self.runs() && !self.writable ==> why == Some(Error::TxNotWritable)
                &&& self.runs() && self.writable && key.len() == 0 ==> why == Some(Error::KeyRequired)
                &&& self.runs() && self.writable && key.len() > 32768 ==> why == Some(Error::KeyTooLarge)
                &&& self.runs() && self.writable && 1 <= key.len() <= 32768 && value.len() > 2147483646 ==> why == Some(
                    Error::ValueTooLarge,
                )
                &&& self.runs() && self.writable && 1 <= key.len() <= 32768 && value.len() <= 2147483646 && nested ==> why
                    == Some(Error::IncompatibleValue)
            }),
    {
        self.buckets@[b].lemma_items(self.base@, true);
        lemma_there(self.items(b), key);
    }

    /// A key is deleted, or was not there, if and only if the transaction runs and writes and the
    /// key has no nested bucket.
    pub proof fn lemma_delete_terms(&self, b: int, key: Key)
        requires
            self.good(),
            self.has(b),
        ensures
            ({
                let why = self.delete_refused(b, key);
                let nested = holds_bucket_at(self.items(b), key);
                &&& why is None <==> self.runs() && self.writable && !nested
                &&& !self.runs() ==> why == Some(Error::TxClosed)
                &&& self.runs() && !self.writable ==> why == Some(Error::TxNotWritable)
                &&& self.runs() && self.writable && nested ==> why == Some(Error::IncompatibleValue)
            }),
    {
        self.buckets@[b].lemma_items(self.base@, true);
        lemma_there(self.items(b), key);
    }

    /// A bucket is created if and only if the transaction runs and writes, the name has from 1 to
    /// 32768 bytes, and there is neither a bucket nor a value under that name.
    pub proof fn lemma_create_terms(&self, b: int, name: Key)
        requires
            self.good(),
            self.has(b),
        ensures
            ({
                let why = self.create_refused(b, name);
                let nested = holds_bucket_at(self.items(b), name);
                let value = holds_value(self.items(b), name);
                let may = self.runs() && self.writable;
                &&& why is None <==> may && 1 <= name.len() <= 32768 && !nested && !value
                &&& !self.runs() ==> why == Some(Error::TxClosed)
                &&& self.runs() && !self.writable ==> why == Some(Error::TxNotWritable)
                &&& may && name.len() == 0 ==> why == Some(Error::BucketNameRequired)
                &&& may && name.len() > 32768 ==> why == Some(Error::KeyTooLarge)
                &&& may && 1 <= name.len() <= 32768 && nested ==> why == Some(Error::BucketExists)
                &&& may && 1 <= name.len() <= 32768 && value ==> why == Some(Error::IncompatibleValue)
            }),
    {
        self.buckets@[b].lemma_items(self.base@, true);
        lemma_there(self.items(b), name);
    }

    /// A nested bucket is deleted if and only if the transaction runs and writes and there is one
    /// under the name.
    pub proof fn lemma_delete_bucket_terms(&self, b: int, name: Key)
        requires
            self.good(),
            self.has(b),
        ensures
            ({
                let why = self.delete_bucket_refused(b, name);
                let nested = holds_bucket_at(self.items(b), name);
                let value = holds_value(self.items(b), name);
                let may = self.runs() && self.writable;
                &&& why is None <==> may && nested
                &&& !self.runs() ==> why == Some(Error::TxClosed)
                &&& self.runs() && !self.writable ==> why == Some(Error::TxNotWritable)
                &&& may && value ==> why == Some(Error::IncompatibleValue)
                &&& may && !nested && !value ==> why == Some(Error::BucketNotFound)
            }),
    {
        self.buckets@[b].lemma_items(self.base@, true);
        lemma_there(self.items(b), name);
    }

    /// A nested bucket is moved if and only if the transaction runs and writes, it goes into
    /// another bucket, there is one under the name, and neither a bucket nor a value has that name
    /// where it goes.
    pub proof fn lemma_move_terms(&self, src: int, dst: int, name: Key)
        requires
            self.good(),
            self.has(src),
            self.has(dst),
        ensures
            ({
                let why = self.move_refused(src, dst, name);
                let nested = holds_bucket_at(self.items(src), name);
                let value = holds_value(self.items(src), name);
                let there = holds_bucket_at(self.items(dst), name);
                let taken = holds_value(self.items(dst), name);
                let may = self.runs() && self.writable;
                &&& why is None <==> may && src != dst && nested && !there && !taken
                &&& !self.runs() ==> why == Some(Error::TxClosed)
                &&& self.runs() && !self.writable ==> why == Some(Error::TxNotWritable)
                &&& may && src == dst ==> why == Some(Error::SameBuckets)
                &&& may && src != dst && !nested && !value ==> why == Some(Error::BucketNotFound)
                &&& may && src != dst && value ==> why == Some(Error::IncompatibleValue)
                &&& may && src != dst && nested && there ==> why == Some(Error::BucketExists)
                &&& may && src != dst && nested && taken ==> why == Some(Error::IncompatibleValue)
            }),
    {
        self.buckets@[src].lemma_items(self.base@, true);
        self.buckets@[dst].lemma_items(self.base@, true);
        lemma_there(self.items(src), name);
        lemma_there(self.items(dst), name);
    }

    /// A transaction commits, but for a file that may not grow so far, if and only if it runs and
    /// writes and is not left to the library.
    pub proof fn lemma_commit_terms(&self)
        ensures
            self.commit_refused() is None <==> !self.managed && self.runs() && self.writable,
            self.managed ==> self.commit_refused() == Some(Error::ManagedTx),
            !self.managed && !self.runs() ==> self.commit_refused() == Some(Error::TxClosed),
            !self.managed && self.runs() && !self.writable ==> self.commit_refused() == Some(Error::TxNotWritable),
    {
    }

    /// A transaction is rolled back if and only if it has not ended and is not left to the library.
    pub proof fn lemma_rollback_terms(&self)
        ensures
            self.rollback_refused() is None <==> !self.managed && !self.closed,
            self.managed ==> self.rollback_refused() == Some(Error::ManagedTx),
            !self.managed && self.closed ==> self.rollback_refused() == Some(Error::TxClosed),
    {
    }
}

/// A transaction begins if and only if the database is open and its file is mapped, and it only
/// reads or the database is not opened for reading only.
pub proof fn lemma_begin_terms(opened: bool, read_only: bool, mapped: bool, writable: bool)
    ensures
        begin_refused(opened, read_only, mapped, writable) is None <==> opened && mapped && !(writable && read_only),
        !opened ==> begin_refused(opened, read_only, mapped, writable) == Some(Error::DatabaseNotOpen),
        opened && writable && read_only ==> begin_refused(opened, read_only, mapped, writable) == Some(
            Error::DatabaseReadOnly,
        ),
        opened && !(writable && read_only) && !mapped ==> begin_refused(opened, read_only, mapped, writable) == Some(
            Error::InvalidMapping,
        ),
{
}

/// Unless something else is asked for, two halves fill a page, and four quarters do: a page is
/// filled by half when it is split, and joined when it is filled by a quarter.
pub proof fn lemma_default_fill(page_size: int)
    requires
        page_size >= 0,
    ensures
        page_size - 1 <= 2 * default_split(page_size) <= page_size,
        page_size - 3 <= 4 * default_merge(page_size) <= page_size,
{
}

/// A writer has the number after that of the last commit, and a reader that of the last commit. Either
/// begins with what that commit left.
pub proof fn lemma_begun(meta: Meta, writable: bool)
    requires
        meta.txid < u64::MAX,
    ensures
        begun_meta(meta, writable).txid - meta.txid == (if writable { 1int } else { 0 }),
        begun_meta(meta, writable).root == meta.root,
        begun_meta(meta, writable).pgid == meta.pgid,
        begun_meta(meta, writable).freelist == meta.freelist,
        begun_meta(meta, writable).page_size == meta.page_size,
{
}

/// A step of a copy, in a bucket that holds `h`, is carried out on the same terms as the put or the
/// creation that it is. There are no values at the top.
pub proof fn lemma_copy_terms(tx: TxInner, h: Seq<(Key, Item)>, step: StepV)
    ensures
        ({
            let may = tx.runs() && tx.writable && 1 <= step.key.len() <= 32768 && bucket_in(h, step.key) is None;
            copy_refused(tx, h, step) is None <==> may && match step.value {
                Some(v) => v.len() <= 2147483646 && step.path.len() > 0,
                None => value_in(h, step.key) is None,
            }
        }),
{
}

} // verus!
