//! What changes do to what is held.
use vstd::prelude::*;
use crate::bucket::BucketId;
use crate::closing::{open_contents, open_entry};
use crate::contents::Item;
use crate::inode::InodeV;
use crate::laws::{bucket_in, lemma_put_contents, lemma_reads_contents, lemma_same_from, way_to, with_value};
use crate::ripple::{kept, lemma_ripple, lemma_sub_entry, only_in, renewed};
use crate::tree::{at_key, has_key, lemma_pos, lemma_with_item, lemma_without_key, pos, with_item, without_key, Key};
use crate::tx::{bucket_at, lemma_sub_id, sub_id, subs_linked, value_item, TxInner};

verus! {

/// Where only bucket `b` was changed nothing else was.
proof fn lemma_only_in(before: TxInner, after: TxInner, b: int)
    requires
        before.has(b),
        after.same_but(&before, b),
        after.buckets@[b].same_but_root(before.buckets@[b]),
    ensures
        only_in(before, after, b),
{
    reveal(kept);
}

/// Putting a key changes what the root bucket holds at the end of the path of the bucket, in the
/// place of the key, and nowhere else.
pub proof fn lemma_put_changes(before: TxInner, after: TxInner, b: int, key: Key, value: Seq<u8>)
    requires
        before.good(),
        after.good(),
        before.has(b),
        !bucket_at(before.items(b), key),
        after.same_but(&before, b),
        after.buckets@[b].same_but_root(before.buckets@[b]),
        after.items(b) == with_item(before.items(b), value_item(key, value)),
    ensures
        open_contents(after.buckets@, after.base@, 0) == renewed(
            open_contents(before.buckets@, before.base@, 0),
            way_to(before.buckets@, b),
            with_value(
                open_contents(before.buckets@, before.base@, b),
                pos(before.items(b), key),
                has_key(before.items(b), key),
                key,
                value,
            ),
        ),
{
    lemma_put_contents(before, after, b, key, value);
    lemma_only_in(before, after, b);
    lemma_ripple(before, after, b);
}

/// What a bucket holds without the element at `at`.
proof fn lemma_without(before: TxInner, after: TxInner, b: int, key: Key)
    requires
        before.good(),
        before.has(b),
        only_in(before, after, b),
        has_key(before.items(b), key),
        after.items(b) == without_key(before.items(b), key),
        forall|k: Key|
            k != key ==> #[trigger] sub_id(after.buckets@[b].subbuckets@, k) == sub_id(before.buckets@[b].subbuckets@, k),
    ensures
        open_contents(after.buckets@, after.base@, b) == open_contents(before.buckets@, before.base@, b).remove(
            pos(before.items(b), key),
        ),
{
    let s = before.items(b);
    let t = after.items(b);
    let q = pos(s, key);
    before.buckets@[b].lemma_items(before.base@, true);
    lemma_pos(s, key);
    let held = open_contents(before.buckets@, before.base@, b);
    let x = open_contents(after.buckets@, after.base@, b);
    assert forall|i: int| 0 <= i < x.len() implies x[i] == held.remove(q)[i] by {
        let j = if i < q { i } else { i + 1 };
        assert(t[i] == s[j]);
        assert(s[j].key != key) by {
            broadcast use crate::order::group_order;

        }
        assert(x[i] == open_entry(after.buckets@, before.base@, b, t[i]));
        lemma_sub_entry(before, after, b, s[j]);
        assert(held[j] == open_entry(before.buckets@, before.base@, b, s[j]));
    }
    assert(x =~= held.remove(q));
}

/// Deleting a key takes it out of what the root bucket holds at the end of the path of the bucket,
/// and changes nothing else.
pub proof fn lemma_delete_changes(before: TxInner, after: TxInner, b: int, key: Key)
    requires
        before.good(),
        before.has(b),
        has_key(before.items(b), key),
        after.same_but(&before, b),
        after.buckets@[b].same_but_root(before.buckets@[b]),
        after.items(b) == without_key(before.items(b), key),
    ensures
        open_contents(after.buckets@, after.base@, 0) == renewed(
            open_contents(before.buckets@, before.base@, 0),
            way_to(before.buckets@, b),
            open_contents(before.buckets@, before.base@, b).remove(pos(before.items(b), key)),
        ),
{
    lemma_only_in(before, after, b);
    lemma_without(before, after, b, key);
    lemma_ripple(before, after, b);
}

/// Deleting a nested bucket takes it, with all that is in it, out of what the root bucket holds at
/// the end of the path of the bucket around it, and changes nothing else.
pub proof fn lemma_delete_bucket_changes(before: TxInner, after: TxInner, b: int, name: Key)
    requires
        before.good(),
        before.has(b),
        bucket_at(before.items(b), name),
        before.bucket_deleted(&after, b, name),
    ensures
        open_contents(after.buckets@, after.base@, 0) == renewed(
            open_contents(before.buckets@, before.base@, 0),
            way_to(before.buckets@, b),
            open_contents(before.buckets@, before.base@, b).remove(pos(before.items(b), name)),
        ),
{
    assert(only_in(before, after, b)) by {
        reveal(kept);
    }
    before.buckets@[b].lemma_items(before.base@, true);
    lemma_pos(before.items(b), name);
    lemma_without(before, after, b, name);
    lemma_ripple(before, after, b);
}

/// A nested bucket that is moved holds, where it comes to, what it held where it was, unless it was
/// open.
pub proof fn lemma_move_holds(before: TxInner, after: TxInner, src: int, dst: int, name: Key)
    requires
        before.good(),
        before.has(src),
        before.has(dst),
        after.good(),
        after.has(dst),
        src != dst,
        bucket_at(before.items(src), name),
        at_key(before.items(dst), name) is None,
        sub_id(before.buckets@[src].subbuckets@, name) is None,
        before.moved(&after, src, dst, name),
    ensures
        bucket_in(open_contents(after.buckets@, after.base@, dst), name) == bucket_in(
            open_contents(before.buckets@, before.base@, src),
            name,
        ),
        bucket_in(open_contents(after.buckets@, after.base@, src), name) is None,
{
    let base = before.base@;
    let bs = before.buckets@;
    let cs = after.buckets@;
    let s = before.items(src);
    let t = after.items(dst);
    let item = at_key(s, name)->0;
    bs[src].lemma_items(base, true);
    bs[dst].lemma_items(base, true);
    cs[dst].lemma_items(base, true);
    lemma_pos(s, name);
    lemma_pos(t, name);
    lemma_with_item(before.items(dst), item);
    assert(at_key(t, name) == Some(item));
    assert(sub_id(cs[dst].subbuckets@, name) is None) by {
        let j = lemma_sub_id(bs[dst].subbuckets@, name);
        if sub_id(bs[dst].subbuckets@, name) is Some {
            assert(subs_linked(bs, base, dst));
            assert(bs[dst].subbuckets@[j].0@ == name);
        }
    }
    lemma_bucket_found(before, src, name);
    lemma_bucket_found(after, dst, name);
    lemma_without_key(s, name);
    lemma_reads_contents(after, src, name);
    assert(at_key(after.items(src), name) is None);
}

/// What a bucket holds at the name of a nested bucket is what its element stands for.
proof fn lemma_bucket_found(tx: TxInner, b: int, name: Key)
    requires
        tx.good(),
        tx.has(b),
        bucket_at(tx.items(b), name),
    ensures
        bucket_in(open_contents(tx.buckets@, tx.base@, b), name) == Some(
            open_entry(tx.buckets@, tx.base@, b, at_key(tx.items(b), name)->0).1->items,
        ),
{
    let s = tx.items(b);
    let held = open_contents(tx.buckets@, tx.base@, b);
    tx.buckets@[b].lemma_items(tx.base@, true);
    lemma_pos(s, name);
    let q = pos(s, name);
    lemma_reads_contents(tx, b, name);
    assert(held[q] == open_entry(tx.buckets@, tx.base@, b, s[q]));
    assert forall|i: int| 0 <= i < held.len() && (#[trigger] held[i]).0 == name implies i == q by {
        broadcast use crate::order::group_order;

        assert(held[i] == open_entry(tx.buckets@, tx.base@, b, s[i]));
        if i != q {
            assert(crate::order::less(name, name));
        }
    }
}

/// Creating a bucket puts an empty one, whose sequence number is zero, into what the root bucket holds
/// at the end of the path of the bucket around it, in the place of its name, and changes nothing else.
pub proof fn lemma_create_changes(before: TxInner, after: TxInner, b: int, name: Key, c: BucketId)
    requires
        before.good(),
        after.good(),
        before.has(b),
        at_key(before.items(b), name) is None,
        before.created(&after, b, name, c),
    ensures
        open_contents(after.buckets@, after.base@, 0) == renewed(
            open_contents(before.buckets@, before.base@, 0),
            way_to(before.buckets@, b),
            open_contents(before.buckets@, before.base@, b).insert(
                pos(before.items(b), name),
                (name, Item::Bucket { sequence: 0, items: Seq::empty() }),
            ),
        ),
{
    let base = before.base@;
    let (bs, cs) = (before.buckets@, after.buckets@);
    let s = before.items(b);
    let t = after.items(b);
    let q = pos(s, name);
    assert(only_in(before, after, b)) by {
        reveal(kept);
    }
    bs[b].lemma_items(base, true);
    lemma_pos(s, name);
    let item = at_key(t, name)->0;
    let held = open_contents(bs, base, b);
    let new = (name, Item::Bucket { sequence: 0, items: Seq::<(Key, Item)>::empty() });
    assert(open_contents(cs, base, c as int) =~= Seq::<(Key, Item)>::empty());
    let x = open_contents(cs, base, b);
    assert(t =~= s.insert(q, item));
    assert forall|i: int| 0 <= i < x.len() implies x[i] == held.insert(q, new)[i] by {
        assert(x[i] == open_entry(cs, base, b, t[i]));
        if i == q {
            assert(open_entry(cs, base, b, item) == new);
        } else {
            let j = if i < q { i } else { i - 1 };
            assert(t[i] == s[j]);
            assert(s[j].key != name) by {
                broadcast use crate::order::group_order;

            }
            lemma_sub_added(bs[b].subbuckets@, cs[b].subbuckets@, s[j].key);
            lemma_sub_entry(before, after, b, s[j]);
            assert(held[j] == open_entry(bs, base, b, s[j]));
        }
    }
    assert(x =~= held.insert(q, new));
    lemma_ripple(before, after, b);
}

/// One more open bucket is not found under another name.
proof fn lemma_sub_added(subs: Seq<(Vec<u8>, BucketId)>, more: Seq<(Vec<u8>, BucketId)>, key: Key)
    requires
        more.len() == subs.len() + 1,
        more.drop_last() == subs,
        more.last().0@ != key,
    ensures
        sub_id(more, key) == sub_id(subs, key),
{
}

/// After the sequence number of a bucket was set, the bucket around it says so of it; what it holds, and
/// all that was opened after it, is as it was.
pub proof fn lemma_sequence_changes(before: TxInner, after: TxInner, b: int, n: u64, item: InodeV)
    requires
        before.good(),
        before.has(b),
        before.numbered(&after, b, n),
    ensures
        open_contents(after.buckets@, after.base@, b) == open_contents(before.buckets@, before.base@, b),
        ({
            let p = before.buckets@[b].parent as int;
            0 <= p < b && sub_id(before.buckets@[p].subbuckets@, item.key) == Some(b as usize) ==> open_entry(
                after.buckets@,
                after.base@,
                p,
                item,
            ) == (item.key, Item::Bucket { sequence: n, items: open_contents(before.buckets@, before.base@, b) })
        }),
{
    let base = before.base@;
    let (bs, cs) = (before.buckets@, after.buckets@);
    let s = before.items(b);
    let x = open_contents(cs, base, b);
    assert forall|i: int| 0 <= i < x.len() implies x[i] == open_contents(bs, base, b)[i] by {
        assert(x[i] == open_entry(cs, base, b, s[i]));
        match sub_id(bs[b].subbuckets@, s[i].key) {
            Some(d) => if b < d < bs.len() {
                lemma_same_from(bs, cs, base, d as int);
                assert(cs[d as int] == bs[d as int]);
            },
            None => {},
        }
    }
    assert(x =~= open_contents(bs, base, b));
    let p = bs[b].parent as int;
    if 0 <= p < b {
        assert(cs[p] == bs[p]);
    }
}

} // verus!
