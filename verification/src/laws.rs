//! What reads give back of writes.
use vstd::prelude::*;
use crate::bucket::BucketInner;
use crate::closing::{lemma_closed_contents, open_contents, open_entry};
use crate::contents::{contents, entry, inline_contents, Item};
use crate::freelist::FreelistV;
use crate::inode::{decode, InodeV};
use crate::node::{inline_page, inline_tree, Base};
use crate::plan::CommitPlan;
use crate::tree::{at_key, has_key, is_bucket, lemma_pos, lemma_with_item, lemma_without_key, pos, root_of, with_item, without_key, Key};
use crate::tx::{bucket_at, known, lemma_sub_id, opened_from, sub_id, subs_linked, value_at, value_item, TxInner};

verus! {

/// The value of a key among what a bucket holds.
pub open spec fn value_in(held: Seq<(Key, Item)>, key: Key) -> Option<Seq<u8>> {
    if exists|i: int| 0 <= i < held.len() && (#[trigger] held[i]).0 == key && held[i].1 is Value {
        let i = choose|i: int| 0 <= i < held.len() && (#[trigger] held[i]).0 == key && held[i].1 is Value;
        Some(held[i].1->bytes)
    } else {
        None
    }
}

/// What the nested bucket of a key holds, among what a bucket holds.
pub open spec fn bucket_in(held: Seq<(Key, Item)>, key: Key) -> Option<Seq<(Key, Item)>> {
    if exists|i: int| 0 <= i < held.len() && (#[trigger] held[i]).0 == key && held[i].1 is Bucket {
        let i = choose|i: int| 0 <= i < held.len() && (#[trigger] held[i]).0 == key && held[i].1 is Bucket;
        Some(held[i].1->items)
    } else {
        None
    }
}

/// After a key was put it has the value that was put, and every other key has what it had.
pub proof fn lemma_put_get(before: TxInner, after: TxInner, b: int, key: Key, value: Seq<u8>)
    requires
        before.good(),
        before.has(b),
        after.items(b) == with_item(before.items(b), value_item(key, value)),
    ensures
        value_at(after.items(b), key) == Some(value),
        !bucket_at(after.items(b), key),
        forall|k: Key| k != key ==> #[trigger] at_key(after.items(b), k) == at_key(before.items(b), k),
{
    before.buckets@[b].lemma_items(before.base@, true);
    lemma_with_item(before.items(b), value_item(key, value));
    assert(at_key(after.items(b), key) == Some(value_item(key, value)));
    assert(!is_bucket(value_item(key, value))) by {
        assert(0u32 & 1u32 == 0) by (bit_vector);
    }
}

/// After a key was deleted it has nothing, and every other key has what it had.
pub proof fn lemma_delete_get(before: TxInner, after: TxInner, b: int, key: Key)
    requires
        before.good(),
        before.has(b),
        after.items(b) == without_key(before.items(b), key),
    ensures
        at_key(after.items(b), key) is None,
        forall|k: Key| k != key ==> #[trigger] at_key(after.items(b), k) == at_key(before.items(b), k),
{
    before.buckets@[b].lemma_items(before.base@, true);
    lemma_without_key(before.items(b), key);
    assert(at_key(after.items(b), key) is None);
}

/// Deleting a key that was new when it was put undoes the put.
pub proof fn lemma_put_delete(before: TxInner, b: int, key: Key, value: Seq<u8>)
    requires
        before.good(),
        before.has(b),
        at_key(before.items(b), key) is None,
    ensures
        without_key(with_item(before.items(b), value_item(key, value)), key) == before.items(b),
{
    let s = before.items(b);
    let t = with_item(s, value_item(key, value));
    before.buckets@[b].lemma_items(before.base@, true);
    lemma_with_item(s, value_item(key, value));
    lemma_pos(s, key);
    lemma_pos(t, key);
    assert(at_key(t, key) is Some);
    let q = pos(s, key);
    assert(t[q] == value_item(key, value));
    assert(pos(t, key) == q) by {
        broadcast use crate::order::group_order;

        if pos(t, key) < q {
            assert(t[pos(t, key)] == s[pos(t, key)]);
        } else if pos(t, key) > q {
            assert(crate::order::less(t[q].key, key));
        }
    }
    assert(t.remove(q) =~= s);
}

/// Putting a key again leaves only the value that was put last.
pub proof fn lemma_put_put(before: TxInner, b: int, key: Key, first: Seq<u8>, second: Seq<u8>)
    requires
        before.good(),
        before.has(b),
    ensures
        with_item(with_item(before.items(b), value_item(key, first)), value_item(key, second)) == with_item(
            before.items(b),
            value_item(key, second),
        ),
{
    let s = before.items(b);
    let t = with_item(s, value_item(key, first));
    before.buckets@[b].lemma_items(before.base@, true);
    lemma_with_item(s, value_item(key, first));
    lemma_pos(s, key);
    lemma_pos(t, key);
    assert(at_key(t, key) is Some);
    let q = pos(s, key);
    assert(t[q] == value_item(key, first));
    assert(pos(t, key) == q) by {
        broadcast use crate::order::group_order;

        if pos(t, key) < q {
            assert(t[pos(t, key)] == s[pos(t, key)]);
        } else if pos(t, key) > q {
            assert(crate::order::less(t[q].key, key));
        }
    }
    assert(with_item(t, value_item(key, second)) =~= with_item(s, value_item(key, second)));
}

/// A read gives what a bucket holds.
pub proof fn lemma_reads_contents(tx: TxInner, b: int, key: Key)
    requires
        tx.good(),
        tx.has(b),
    ensures
        value_at(tx.items(b), key) == value_in(open_contents(tx.buckets@, tx.base@, b), key),
        bucket_at(tx.items(b), key) <==> bucket_in(open_contents(tx.buckets@, tx.base@, b), key) is Some,
{
    broadcast use crate::order::group_order;

    let bs = tx.buckets@;
    let base = tx.base@;
    let s = tx.items(b);
    let held = open_contents(bs, base, b);
    bs[b].lemma_items(base, true);
    lemma_pos(s, key);
    assert(subs_linked(bs, base, b));
    assert forall|i: int| 0 <= i < held.len() implies {
        &&& (#[trigger] held[i]).0 == s[i].key
        &&& held[i].1 is Value <==> !is_bucket(s[i])
        &&& held[i].1 is Value ==> held[i].1->bytes == s[i].value
        &&& s[i].key == key ==> i == pos(s, key)
    } by {
        assert(held[i] == open_entry(bs, base, b, s[i]));
        let j = lemma_sub_id(bs[b].subbuckets@, s[i].key);
        if sub_id(bs[b].subbuckets@, s[i].key) is Some {
            assert(bs[b].subbuckets@[j].0@ == s[i].key);
            lemma_pos(s, s[i].key);
            assert(bucket_at(s, s[i].key));
            assert(s[pos(s, s[i].key)].key == s[i].key);
            if pos(s, s[i].key) != i {
                assert(crate::order::less(s[i].key, s[i].key));
            }
        }
        if s[i].key == key {
            assert(!crate::order::less(key, key));
        }
    }
    if has_key(s, key) {
        let q = pos(s, key);
        assert(held[q].0 == key);
    }
}

// ---------------------------------------------------------------------------------------------
// Opening a nested bucket.

/// What is held from bucket `d` on depends only on the buckets from there on.
pub proof fn lemma_same_from(bs: Seq<BucketInner>, cs: Seq<BucketInner>, base: Base, d: int)
    requires
        0 <= d < bs.len(),
        bs.len() == cs.len(),
        forall|e: int| d <= e < bs.len() ==> #[trigger] bs[e] == cs[e],
    ensures
        open_contents(bs, base, d) == open_contents(cs, base, d),
    decreases bs.len() - d,
{
    let s = bs[d].items(base);
    assert(bs[d] == cs[d]);
    assert forall|i: int| 0 <= i < s.len() implies open_entry(bs, base, d, s[i]) == open_entry(cs, base, d, s[i]) by {
        match sub_id(bs[d].subbuckets@, s[i].key) {
            Some(c) => if d < c < bs.len() {
                lemma_same_from(bs, cs, base, c as int);
                assert(bs[c as int] == cs[c as int]);
            },
            None => {},
        }
    }
    assert(open_contents(bs, base, d) =~= open_contents(cs, base, d));
}

/// A bucket that was just opened holds what its element stands for.
proof fn lemma_fresh_contents(bs: Seq<BucketInner>, base: Base, c: int, item: InodeV)
    requires
        base.ok(),
        base.item_ok(item),
        is_bucket(item),
        0 <= c < bs.len(),
        bs[c].ok(base, true),
        opened_from(bs[c], item),
    ensures
        entry(item, base.sub(item)) == (
            item.key,
            Item::Bucket { sequence: bs[c].header.sequence, items: open_contents(bs, base, c) },
        ),
{
    lemma_closed_contents(bs, base, c, true);
    assert(bs[c].header.root == root_of(item));
    if bs[c].header.root == 0 {
        let page = inline_page(item.value);
        assert(bs[c].tree(base) == inline_tree(page));
        assert(contents(inline_tree(page)) =~= inline_contents(page)) by {
            assert forall|i: int| 0 <= i < decode(page).len() implies contents(inline_tree(page))[i]
                == inline_contents(page)[i] by {
                assert(!is_bucket(decode(page)[i]));
            }
        }
    }
}

/// Opening a nested bucket changes nothing that any bucket holds.
proof fn lemma_open_keeps(before: TxInner, after: TxInner, b: int, name: Key, c: usize, d: int)
    requires
        before.good(),
        after.good(),
        before.has(b),
        bucket_at(before.items(b), name),
        sub_id(before.buckets@[b].subbuckets@, name) is None,
        before.opened_in(&after, b, name, c),
        before.has(d),
    ensures
        open_contents(after.buckets@, after.base@, d) == open_contents(before.buckets@, before.base@, d),
    decreases before.buckets@.len() - d,
{
    let bs = before.buckets@;
    let cs = after.buckets@;
    let base = before.base@;
    let s = bs[d].items(base);
    assert(cs[d].items(base) == s);
    assert forall|i: int| 0 <= i < s.len() implies open_entry(bs, base, d, s[i]) == open_entry(cs, base, d, s[i]) by {
        if d == b {
            assert(cs[b].subbuckets@.drop_last() == bs[b].subbuckets@);
        }
        if d == b && s[i].key == name {
            bs[b].lemma_items(base, true);
            lemma_pos(s, name);
            assert(s[pos(s, name)].key == name);
            broadcast use crate::order::group_order;

            if pos(s, name) != i {
                assert(crate::order::less(name, name));
            }
            assert(base.item_ok(s[i]));
            assert(after.has(c as int));
            lemma_fresh_contents(cs, base, c as int, s[i]);
        } else {
            match sub_id(bs[d].subbuckets@, s[i].key) {
                Some(e) => {
                    let j = lemma_sub_id(bs[d].subbuckets@, s[i].key);
                    assert(subs_linked(bs, base, d));
                    assert(bs[d].subbuckets@[j].1 == e);
                    lemma_open_keeps(before, after, b, name, c, e as int);
                    assert(cs[e as int].header == bs[e as int].header);
                },
                None => {},
            }
        }
    }
    assert(open_contents(cs, base, d) =~= open_contents(bs, base, d));
}

/// A nested bucket that is opened holds what its parent says that it holds, and opening it changes
/// nothing that any bucket holds.
pub proof fn lemma_open_contents(before: TxInner, after: TxInner, b: int, name: Key, c: usize)
    requires
        before.good(),
        after.good(),
        before.has(b),
        bucket_at(before.items(b), name),
        before.opened_in(&after, b, name, c),
    ensures
        forall|d: int|
            before.has(d) ==> #[trigger] open_contents(after.buckets@, after.base@, d) == open_contents(
                before.buckets@,
                before.base@,
                d,
            ),
        bucket_in(open_contents(before.buckets@, before.base@, b), name) == Some(
            open_contents(after.buckets@, after.base@, c as int),
        ),
{
    broadcast use crate::order::group_order;

    let bs = before.buckets@;
    let cs = after.buckets@;
    let base = before.base@;
    let s = before.items(b);
    assert forall|d: int| before.has(d) implies #[trigger] open_contents(cs, base, d) == open_contents(bs, base, d) by {
        if sub_id(bs[b].subbuckets@, name) is None {
            lemma_open_keeps(before, after, b, name, c, d);
        }
    }
    let held = open_contents(cs, base, b);
    bs[b].lemma_items(base, true);
    lemma_pos(s, name);
    let q = pos(s, name);
    assert(cs[b].items(base) == s);
    assert(held[q] == open_entry(cs, base, b, s[q]));
    assert(subs_linked(cs, base, b));
    let j = lemma_sub_id(cs[b].subbuckets@, name);
    assert(cs[b].subbuckets@[j].1 == c);
    assert(held[q].0 == name && held[q].1 is Bucket);
    assert forall|i: int| 0 <= i < held.len() && (#[trigger] held[i]).0 == name implies i == q by {
        assert(held[i] == open_entry(cs, base, b, s[i]));
        assert(s[i].key == name);
        if i != q {
            assert(crate::order::less(name, name));
        }
    }
}

// ---------------------------------------------------------------------------------------------
// Writing to a bucket.

/// What a bucket holds once a key has a value.
pub open spec fn with_value(held: Seq<(Key, Item)>, at: int, replaces: bool, key: Key, value: Seq<u8>) -> Seq<(Key, Item)> {
    if replaces {
        held.update(at, (key, Item::Value { bytes: value }))
    } else {
        held.insert(at, (key, Item::Value { bytes: value }))
    }
}

/// Putting a key changes what its bucket holds at that key only, in the place that the order of the
/// keys gives it, and nothing that any bucket opened after it holds.
pub proof fn lemma_put_contents(before: TxInner, after: TxInner, b: int, key: Key, value: Seq<u8>)
    requires
        before.good(),
        after.good(),
        before.has(b),
        !bucket_at(before.items(b), key),
        after.same_but(&before, b),
        after.buckets@[b].same_but_root(before.buckets@[b]),
        after.items(b) == with_item(before.items(b), value_item(key, value)),
    ensures
        open_contents(after.buckets@, after.base@, b) == with_value(
            open_contents(before.buckets@, before.base@, b),
            pos(before.items(b), key),
            has_key(before.items(b), key),
            key,
            value,
        ),
        forall|d: int|
            b < d < before.buckets@.len() ==> #[trigger] open_contents(after.buckets@, after.base@, d) == open_contents(
                before.buckets@,
                before.base@,
                d,
            ),
{
    let bs = before.buckets@;
    let cs = after.buckets@;
    let base = before.base@;
    let s = before.items(b);
    let t = after.items(b);
    let q = pos(s, key);
    assert forall|d: int| b < d < bs.len() implies #[trigger] open_contents(cs, base, d) == open_contents(bs, base, d) by {
        lemma_same_from(bs, cs, base, d);
    }
    bs[b].lemma_items(base, true);
    lemma_pos(s, key);
    assert(subs_linked(bs, base, b));
    assert(cs[b].subbuckets == bs[b].subbuckets);
    assert forall|item: InodeV| #[trigger] open_entry(cs, base, b, item) == open_entry(bs, base, b, item) by {
        match sub_id(bs[b].subbuckets@, item.key) {
            Some(c) => if b < c < bs.len() {
                assert(open_contents(cs, base, c as int) == open_contents(bs, base, c as int));
                assert(cs[c as int] == bs[c as int]);
            },
            None => {},
        }
    }
    let new = value_item(key, value);
    assert(open_entry(cs, base, b, new) == (key, Item::Value { bytes: value })) by {
        let j = lemma_sub_id(bs[b].subbuckets@, key);
        if sub_id(bs[b].subbuckets@, key) is Some {
            assert(bs[b].subbuckets@[j].0@ == key);
            assert(bucket_at(s, key));
        }
        assert(!is_bucket(new)) by {
            assert(0u32 & 1u32 == 0) by (bit_vector);
        }
    }
    let x = open_contents(cs, base, b);
    let y = with_value(open_contents(bs, base, b), q, has_key(s, key), key, value);
    assert forall|i: int| 0 <= i < x.len() implies x[i] == y[i] by {
        assert(x[i] == open_entry(cs, base, b, t[i]));
        if has_key(s, key) {
            assert(t[i] == s.update(q, new)[i]);
        } else {
            assert(t[i] == s.insert(q, new)[i]);
        }
    }
    assert(x =~= y);
}

// ---------------------------------------------------------------------------------------------
// Buckets in buckets.

/// What the bucket holds that a path of names leads to, among what a bucket holds.
pub open spec fn held_at(held: Seq<(Key, Item)>, path: Seq<Key>) -> Option<Seq<(Key, Item)>>
    decreases path.len(),
{
    if path.len() == 0 {
        Some(held)
    } else {
        match held_at(held, path.drop_last()) {
            Some(h) => bucket_in(h, path.last()),
            None => None,
        }
    }
}

/// The names that lead from the root bucket to bucket `b`.
pub open spec fn way_to(bs: Seq<BucketInner>, b: int) -> Seq<Key>
    decreases b,
{
    if 0 < b < bs.len() && bs[b].parent < b {
        way_to(bs, bs[b].parent as int).push(bs[b].name@)
    } else {
        Seq::empty()
    }
}

/// A bucket that is open in another holds what the other holds at its name.
proof fn lemma_sub_contents(tx: TxInner, b: int, name: Key, c: usize)
    requires
        tx.good(),
        tx.has(b),
        sub_id(tx.buckets@[b].subbuckets@, name) == Some(c),
    ensures
        bucket_in(open_contents(tx.buckets@, tx.base@, b), name) == Some(
            open_contents(tx.buckets@, tx.base@, c as int),
        ),
{
    let j = lemma_sub_id(tx.buckets@[b].subbuckets@, name);
    assert(subs_linked(tx.buckets@, tx.base@, b));
    assert(tx.buckets@[b].subbuckets@[j].0@ == name && tx.buckets@[b].subbuckets@[j].1 == c);
    assert(tx.opened_in(&tx, b, name, c));
    lemma_open_contents(tx, tx, b, name, c);
}

/// What an open bucket holds is what the root bucket holds at the end of its path, however deep it
/// is nested and whatever was changed in it.
pub proof fn lemma_way_contents(tx: TxInner, b: int)
    requires
        tx.good(),
        tx.has(b),
    ensures
        held_at(open_contents(tx.buckets@, tx.base@, 0), way_to(tx.buckets@, b)) == Some(
            open_contents(tx.buckets@, tx.base@, b),
        ),
    decreases b,
{
    let bs = tx.buckets@;
    if b > 0 {
        assert(known(bs, b));
        let q = bs[b].parent as int;
        lemma_way_contents(tx, q);
        let i = choose|i: int| 0 <= i < bs[q].subbuckets@.len() && (#[trigger] bs[q].subbuckets@[i]).1 == b;
        assert(bs[q].subbuckets@[i].1 == b);
        assert(subs_linked(bs, tx.base@, q));
        let name = bs[b].name@;
        assert(bs[q].subbuckets@[i].0@ == name);
        let j = lemma_sub_id(bs[q].subbuckets@, name);
        assert(sub_id(bs[q].subbuckets@, name) == Some(b as usize)) by {
            assert(bs[q].subbuckets@[j].0@ == name);
            if i != j {
                assert(bs[q].subbuckets@[i].0@ != bs[q].subbuckets@[j].0@);
            }
        }
        lemma_sub_contents(tx, q, name, b as usize);
        let path = way_to(bs, b);
        assert(path.drop_last() =~= way_to(bs, q));
        assert(path.last() == name);
    }
}

/// What is committed is what was in the buckets: on the path of each open bucket the file holds,
/// for each key, the value or the nested bucket that the transaction read there last.
pub proof fn lemma_commit_reads(
    tx: TxInner,
    plan: CommitPlan,
    list0: FreelistV,
    list1: FreelistV,
    no_sync: bool,
    b: int,
    key: Key,
)
    requires
        tx.good(),
        tx.has(b),
        tx.committed(plan, list0, list1, no_sync),
    ensures
        ({
            let held = held_at(contents(plan.base@.forest[plan.meta.root.root]), way_to(tx.buckets@, b));
            &&& held is Some
            &&& value_in(held->0, key) == value_at(tx.items(b), key)
            &&& bucket_in(held->0, key) is Some <==> bucket_at(tx.items(b), key)
        }),
{
    lemma_way_contents(tx, b);
    lemma_reads_contents(tx, b, key);
}

/// What was put in a bucket, and committed, is what the file holds at the key on the path of the
/// bucket.
pub proof fn lemma_put_commit(
    before: TxInner,
    tx: TxInner,
    plan: CommitPlan,
    list0: FreelistV,
    list1: FreelistV,
    no_sync: bool,
    b: int,
    key: Key,
    value: Seq<u8>,
)
    requires
        before.good(),
        before.has(b),
        tx.good(),
        tx.has(b),
        tx.items(b) == with_item(before.items(b), value_item(key, value)),
        tx.committed(plan, list0, list1, no_sync),
    ensures
        ({
            let held = held_at(contents(plan.base@.forest[plan.meta.root.root]), way_to(tx.buckets@, b));
            &&& held is Some
            &&& value_in(held->0, key) == Some(value)
            &&& forall|k: Key|
                k != key ==> #[trigger] value_in(held->0, k) == value_at(before.items(b), k)
        }),
{
    lemma_put_get(before, tx, b, key, value);
    lemma_commit_reads(tx, plan, list0, list1, no_sync, b, key);
    let held = held_at(contents(plan.base@.forest[plan.meta.root.root]), way_to(tx.buckets@, b));
    assert forall|k: Key| k != key implies #[trigger] value_in(held->0, k) == value_at(before.items(b), k) by {
        lemma_commit_reads(tx, plan, list0, list1, no_sync, b, k);
        assert(at_key(tx.items(b), k) == at_key(before.items(b), k));
    }
}

} // verus!
