//! What buckets there are, and what is on a page.
use vstd::prelude::*;
use vstd::utf8::{decode_utf8, valid_utf8};
use crate::bucket::BucketId;
use crate::closing::{open_contents, open_entry};
use crate::contents::Item;
use crate::error::{Error, Result};
use crate::freelist::{Freelist, FreelistV};
use crate::laws::{bucket_in, lemma_open_contents};
use crate::page::{header_of, page_type_name, PageHeader, Pgid};
use crate::stats::{BucketStructure, PageInfo};
use crate::tree::{is_bucket, lemma_pos, pos, Key};
use crate::tx::{bucket_at, lemma_sub_id, sub_id, subs_linked, TxInner};

verus! {

// ---------------------------------------------------------------------------------------------
// Names.

/// The text that bytes stand for, where they may be no text.
pub uninterp spec fn lossy_text(bytes: Seq<u8>) -> Seq<char>;

/// `String::from_utf8_lossy`: bytes that are UTF-8 become the text that they encode. What becomes of
/// other bytes, apart from depending on nothing but them, is left open here: the parts that are no
/// UTF-8 are replaced.
#[verifier::external_body]
fn lossy(bytes: &[u8]) -> (text: String)
    ensures
        text@ == lossy_text(bytes@),
        valid_utf8(bytes@) ==> text@ == decode_utf8(bytes@),
{
    String::from_utf8_lossy(bytes).into_owned()
}

// ---------------------------------------------------------------------------------------------
// Buckets in buckets.

/// A bucket with the number of its keys, and the buckets nested in it.
#[verifier::ext_equal]
pub struct ShapeV {
    pub name: Seq<char>,
    pub key_n: nat,
    pub children: Seq<ShapeV>,
}

impl BucketStructure {
    pub open spec fn view(&self) -> ShapeV
        decreases self,
    {
        ShapeV {
            name: self.name@,
            key_n: self.key_n as nat,
            children: Seq::new(
                self.children@.len(),
                |i: int|
                    if 0 <= i < self.children@.len() {
                        self.children@[i].view()
                    } else {
                        arbitrary()
                    },
            ),
        }
    }
}

/// The views of a list of buckets.
pub open spec fn shape_views(list: Seq<BucketStructure>) -> Seq<ShapeV> {
    Seq::new(list.len(), |i: int| list[i]@)
}

/// The number of keys with values among what a bucket holds.
pub open spec fn keys_in(held: Seq<(Key, Item)>) -> nat
    decreases held.len(),
{
    if held.len() == 0 {
        0
    } else {
        keys_in(held.drop_last()) + (if held.last().1 is Value {
            1nat
        } else {
            0nat
        })
    }
}

/// The nested buckets among what a bucket holds, in order.
pub open spec fn shapes_in(held: Seq<(Key, Item)>) -> Seq<ShapeV>
    decreases held, 0nat,
{
    if held.len() == 0 {
        Seq::empty()
    } else {
        match held.last().1 {
            Item::Value { .. } => shapes_in(held.drop_last()),
            Item::Bucket { items, .. } => shapes_in(held.drop_last()).push(shape_of(lossy_text(held.last().0), items)),
        }
    }
}

/// A bucket of a name that holds `held`.
pub open spec fn shape_of(name: Seq<char>, held: Seq<(Key, Item)>) -> ShapeV
    decreases held, 1nat,
{
    ShapeV { name, key_n: keys_in(held), children: shapes_in(held) }
}

/// Every element of a bucket is counted as a key or shown as a child, and no element as both. The
/// children are the nested buckets, each under its own name, in the order of the keys.
pub proof fn lemma_all_shown(name: Seq<char>, held: Seq<(Key, Item)>) -> (places: Seq<int>)
    ensures
        shape_of(name, held).name == name,
        shape_of(name, held).key_n + shape_of(name, held).children.len() == held.len(),
        places.len() == shape_of(name, held).children.len(),
        forall|j: int, k: int| 0 <= j < k < places.len() ==> places[j] < places[k],
        forall|k: int|
            0 <= k < places.len() ==> 0 <= #[trigger] places[k] < held.len() && (held[places[k]].1 matches Item::Bucket {
                items,
                ..
            } && shape_of(name, held).children[k] == shape_of(lossy_text(held[places[k]].0), items)),
        forall|i: int| 0 <= i < held.len() && held[i].1 is Bucket ==> places.contains(i),
    decreases held.len(),
{
    if held.len() == 0 {
        Seq::empty()
    } else {
        let front = held.drop_last();
        let before = lemma_all_shown(name, front);
        let n = held.len() - 1;
        let places = if held.last().1 is Bucket { before.push(n) } else { before };
        assert forall|i: int| 0 <= i < held.len() && held[i].1 is Bucket implies places.contains(i) by {
            if i < n {
                assert(front[i] == held[i]);
                assert(before.contains(i));
                let k = before.index_of(i);
                assert(places[k] == i);
            } else {
                assert(places[before.len() as int] == n);
            }
        }
        assert forall|k: int| 0 <= k < places.len() implies 0 <= #[trigger] places[k] < held.len() && (
        held[places[k]].1 matches Item::Bucket { items, .. } && shape_of(name, held).children[k] == shape_of(
            lossy_text(held[places[k]].0),
            items,
        )) by {
            if k < before.len() {
                assert(0 <= before[k] < front.len());
                assert(front[before[k]] == held[before[k]]);
                assert(shape_of(name, front).children[k] == shape_of(name, held).children[k]);
            }
        }
        places
    }
}

/// Buckets may have been opened, and nothing else happened.
#[verifier::opaque]
pub open spec fn only_opened(before: TxInner, after: TxInner) -> bool {
    &&& after == (TxInner { buckets: after.buckets, ..before })
    &&& forall|d: int| #[trigger]
        before.has(d) ==> after.has(d) && after.items(d) == before.items(d) && open_contents(
            after.buckets@,
            after.base@,
            d,
        ) == open_contents(before.buckets@, before.base@, d)
}

/// What a bucket holds at the place of a nested bucket that was just opened.
proof fn lemma_nested_held(before: TxInner, after: TxInner, b: int, i: int, c: usize)
    requires
        before.good(),
        after.good(),
        before.has(b),
        0 <= i < before.items(b).len(),
        is_bucket(before.items(b)[i]),
        bucket_at(before.items(b), before.items(b)[i].key),
        before.opened_in(&after, b, before.items(b)[i].key, c),
    ensures
        open_contents(before.buckets@, before.base@, b)[i].0 == before.items(b)[i].key,
        open_contents(before.buckets@, before.base@, b)[i].1 matches Item::Bucket { items, .. } && items == open_contents(
            after.buckets@,
            after.base@,
            c as int,
        ),
        only_opened(before, after),
{
    broadcast use crate::order::group_order;

    let s = before.items(b);
    let name = s[i].key;
    let held = open_contents(before.buckets@, before.base@, b);
    lemma_open_contents(before, after, b, name, c);
    before.buckets@[b].lemma_items(before.base@, true);
    assert(held[i] == open_entry(before.buckets@, before.base@, b, s[i]));
    assert(held[i].0 == name);
    assert forall|j: int| 0 <= j < held.len() && (#[trigger] held[j]).0 == name implies j == i by {
        assert(held[j] == open_entry(before.buckets@, before.base@, b, s[j]));
        if j != i {
            assert(crate::order::less(name, name));
        }
    }
    assert(bucket_in(held, name) is Some);
    reveal(only_opened);
}

impl<'a> TxInner<'a> {
    /// A bucket with the buckets nested in it.
    fn inspect_bucket(&mut self, b: BucketId, name: String) -> (r: BucketStructure)
        requires
            old(self).good(),
            old(self).has(b as int),
            old(self).shut() is None,
        ensures
            final(self).good(),
            forall|list: FreelistV| #[trigger] old(self).sound(list) ==> final(self).sound(list),
            forall|list: FreelistV| #[trigger] old(self).full(list) ==> final(self).full(list),
            only_opened(*old(self), *final(self)),
            r@ == shape_of(name@, open_contents(old(self).buckets@, old(self).base@, b as int)),
        decreases open_contents(old(self).buckets@, old(self).base@, b as int), 1nat,
    {
        let ghost tx0 = *self;
        let ghost held = open_contents(self.buckets@, self.base@, b as int);
        let ghost items = self.items(b as int);
        let list: Vec<(Vec<u8>, bool)> = self.listing(b);
        let mut key_n: usize = 0;
        let mut children: Vec<BucketStructure> = Vec::new();
        let mut i: usize = 0;
        assert(held.take(0) =~= Seq::<(Key, Item)>::empty());
        assert(shape_views(children@) =~= Seq::<ShapeV>::empty());
        assert(only_opened(tx0, *self)) by {
            reveal(only_opened);
        }
        while i < list.len()
            invariant
                i <= list@.len(),
                key_n <= i,
                list@.len() == items.len(),
                held.len() == items.len(),
                tx0 == *old(self),
                held == open_contents(tx0.buckets@, tx0.base@, b as int),
                items == tx0.items(b as int),
                tx0.has(b as int),
                tx0.good(),
                tx0.shut() is None,
                self.good(),
                only_opened(tx0, *self),
                forall|list: FreelistV| #[trigger] tx0.sound(list) ==> self.sound(list),
                forall|list: FreelistV| #[trigger] tx0.full(list) ==> self.full(list),
                forall|j: int|
                    0 <= j < list@.len() ==> (#[trigger] list@[j]).0@ == items[j].key && list@[j].1 == is_bucket(items[j]),
                key_n == keys_in(held.take(i as int)),
                shape_views(children@) == shapes_in(held.take(i as int)),
            decreases list@.len() - i,
        {
            let ghost before = *self;
            proof {
                lemma_still(tx0, before, b as int);
                assert(held.take(i + 1).drop_last() =~= held.take(i as int));
                assert(held.take(i + 1).last() == held[i as int]);
                assert(list@[i as int].0@ == items[i as int].key);
                lemma_kind(before, b as int, i as int);
            }
            if list[i].1 {
                let ghost c0 = children@;
                let child: BucketStructure = self.inspect_child(b, list[i].0.as_slice(), Ghost(i as int));
                let ghost v = child@;
                children.push(child);
                assert(shape_views(children@) =~= shape_views(c0).push(v));
                proof {
                    lemma_opened_twice(tx0, before, *self);
                }
            } else {
                key_n = key_n + 1;
            }
            i = i + 1;
        }
        assert(held.take(i as int) =~= held);
        let r = BucketStructure { name, key_n, children };
        assert(r@.children =~= shape_views(children@));
        r
    }

    /// The bucket nested in bucket `b` at place `i`.
    fn inspect_child(&mut self, b: BucketId, key: &[u8], Ghost(i): Ghost<int>) -> (r: BucketStructure)
        requires
            old(self).good(),
            old(self).has(b as int),
            old(self).shut() is None,
            0 <= i < old(self).items(b as int).len(),
            is_bucket(old(self).items(b as int)[i]),
            key@ == old(self).items(b as int)[i].key,
        ensures
            final(self).good(),
            forall|list: FreelistV| #[trigger] old(self).sound(list) ==> final(self).sound(list),
            forall|list: FreelistV| #[trigger] old(self).full(list) ==> final(self).full(list),
            only_opened(*old(self), *final(self)),
            open_contents(old(self).buckets@, old(self).base@, b as int)[i].0 == key@,
            open_contents(old(self).buckets@, old(self).base@, b as int)[i].1 matches Item::Bucket { items, .. } && r@
                == shape_of(lossy_text(key@), items),
        decreases open_contents(old(self).buckets@, old(self).base@, b as int), 0nat,
    {
        let ghost before = *self;
        let ghost held = open_contents(self.buckets@, self.base@, b as int);
        proof {
            lemma_kind(before, b as int, i);
        }
        let c: BucketId = match self.bucket_by_name(b, key) {
            Ok(Some(c)) => c,
            _ => 0,
        };
        let ghost mid = *self;
        proof {
            lemma_nested_held(before, mid, b as int, i, c);
            assert(decreases_to!(held => held[i]));
            assert(decreases_to!(held[i] => held[i].1));
            assert(decreases_to!(held[i].1 => held[i].1->items));
        }
        let r: BucketStructure = self.inspect_bucket(c, lossy(key));
        proof {
            lemma_opened_twice(before, mid, *self);
        }
        r
    }

    /// All buckets of the database, under one that is called root.
    pub fn inspect(&mut self) -> (r: BucketStructure)
        requires
            old(self).good(),
            old(self).has(0),
            old(self).shut() is None,
        ensures
            final(self).good(),
            forall|list: FreelistV| #[trigger] old(self).sound(list) ==> final(self).sound(list),
            forall|list: FreelistV| #[trigger] old(self).full(list) ==> final(self).full(list),
            only_opened(*old(self), *final(self)),
            r@ == shape_of("root"@, open_contents(old(self).buckets@, old(self).base@, 0)),
    {
        self.inspect_bucket(0, "root".to_string())
    }
}

/// An element with a bucket stands for a bucket, and any other for a value.
proof fn lemma_kind(tx: TxInner, b: int, i: int)
    requires
        tx.good(),
        tx.has(b),
        0 <= i < tx.items(b).len(),
    ensures
        bucket_at(tx.items(b), tx.items(b)[i].key) == is_bucket(tx.items(b)[i]),
        open_contents(tx.buckets@, tx.base@, b)[i].1 is Value == !is_bucket(tx.items(b)[i]),
{
    broadcast use crate::order::group_order;

    let bs = tx.buckets@;
    let s = tx.items(b);
    let key = s[i].key;
    bs[b].lemma_items(tx.base@, true);
    lemma_pos(s, key);
    if pos(s, key) != i {
        assert(crate::order::less(key, key));
    }
    assert(open_contents(bs, tx.base@, b)[i] == open_entry(bs, tx.base@, b, s[i]));
    let j = lemma_sub_id(bs[b].subbuckets@, key);
    if sub_id(bs[b].subbuckets@, key) is Some {
        assert(subs_linked(bs, tx.base@, b));
        assert(bs[b].subbuckets@[j].0@ == key);
    }
}

/// A bucket is still open, and holds what it held.
proof fn lemma_still(before: TxInner, after: TxInner, b: int)
    requires
        only_opened(before, after),
        before.has(b),
    ensures
        after.has(b),
        after.items(b) == before.items(b),
        after.shut() == before.shut(),
        open_contents(after.buckets@, after.base@, b) == open_contents(before.buckets@, before.base@, b),
{
    reveal(only_opened);
}

/// What was opened in two steps was opened.
proof fn lemma_opened_twice(a: TxInner, b: TxInner, c: TxInner)
    requires
        only_opened(a, b),
        only_opened(b, c),
    ensures
        only_opened(a, c),
{
    reveal(only_opened);
    assert forall|d: int| #[trigger] a.has(d) implies c.has(d) && c.items(d) == a.items(d) && open_contents(
        c.buckets@,
        c.base@,
        d,
    ) == open_contents(a.buckets@, a.base@, d) by {
        assert(b.has(d));
    }
}

// ---------------------------------------------------------------------------------------------
// Pages.

impl<'a> TxInner<'a> {
    /// What is on a page, unless it is behind the last page of the database or not in the image.
    pub fn page_info(&self, fl: &Freelist, id: Pgid) -> (r: Result<PageInfo>)
        requires
            self.pages.page_size > 0,
            fl.inv(),
        ensures
            match self.shut() {
                Some(e) => r == Err::<PageInfo, Error>(e),
                None => if id >= self.meta.pgid || id * self.pages.page_size + 16 > self.pages.image@.len() {
                    r == Err::<PageInfo, Error>(Error::Invalid)
                } else {
                    let header = header_of(self.pages.image@.skip(id * self.pages.page_size));
                    &&& r matches Ok(info) && info.id == id && info.count == header.count && info.overflow
                        == header.overflow && info.page_type@ == (if fl@.all().contains(id) {
                        "free"@
                    } else {
                        page_type_name(header.flags)
                    })
                },
            },
    {
        if self.closed || !self.opened {
            return Err(Error::TxClosed);
        }
        let image: &'a [u8] = self.pages.image;
        let page_size: usize = self.pages.page_size;
        proof {
            assert(0 <= id * page_size <= 0xFFFF_FFFF_FFFF_FFFF * 0xFFFF_FFFF_FFFF_FFFF) by (nonlinear_arith)
                requires
                    0 <= id <= 0xFFFF_FFFF_FFFF_FFFF,
                    0 <= page_size <= 0xFFFF_FFFF_FFFF_FFFF,
            ;
        }
        let start: u128 = id as u128 * page_size as u128;
        if id >= self.meta.pgid || start + 16 > image.len() as u128 {
            return Err(Error::Invalid);
        }
        let page: &[u8] = vstd::slice::slice_subrange(image, start as usize, image.len());
        assert(page@ =~= image@.skip(start as int));
        let header = PageHeader::read(page);
        let page_type: String = if fl.freed(id) {
            "free".to_string()
        } else {
            header.typ()
        };
        Ok(PageInfo { id, page_type, count: header.count, overflow: header.overflow })
    }
}

} // verus!
