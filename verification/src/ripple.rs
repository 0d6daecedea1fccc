//! What a change in a nested bucket does to the buckets around it.
use vstd::prelude::*;
use crate::bucket::BucketInner;
use crate::closing::{open_contents, open_entry};
use crate::contents::Item;
use crate::inode::InodeV;
use crate::laws::{bucket_in, held_at, lemma_way_contents, way_to};
use crate::node::Base;
use crate::tree::Key;
use crate::tx::{known, lemma_sub_id, linked, sub_id, subs_linked, TxInner};

verus! {

/// A bucket is what it was, or was given up since.
#[verifier::opaque]
pub open spec fn kept(after: BucketInner, before: BucketInner) -> bool {
    after == before || after == (BucketInner { live: false, ..before })
}

/// A bucket that was given up holds what it held.
pub proof fn lemma_kept(after: BucketInner, before: BucketInner, base: Base)
    requires
        kept(after, before),
    ensures
        after.items(base) == before.items(base),
        after.subbuckets == before.subbuckets,
        after.header == before.header,
        after.parent == before.parent,
        after.name == before.name,
{
    reveal(kept);
}

/// Nothing but bucket `b` was changed, and it is where it was. There may be new buckets, and others
/// may have been given up.
pub open spec fn only_in(before: TxInner, after: TxInner, b: int) -> bool {
    let bs = before.buckets@;
    let cs = after.buckets@;
    &&& after.base@ == before.base@
    &&& bs.len() <= cs.len()
    &&& forall|d: int| 0 <= d < bs.len() && d != b ==> kept(#[trigger] cs[d], bs[d])
    &&& cs[b].live == bs[b].live
    &&& cs[b].parent == bs[b].parent
    &&& cs[b].name@ == bs[b].name@
    &&& cs[b].header.sequence == bs[b].header.sequence
}

/// What a bucket holds once the nested bucket of a name holds `h`.
pub open spec fn with_bucket(held: Seq<(Key, Item)>, name: Key, h: Seq<(Key, Item)>) -> Seq<(Key, Item)> {
    Seq::new(
        held.len(),
        |i: int|
            match held[i].1 {
                Item::Bucket { sequence, .. } => if held[i].0 == name {
                    (name, Item::Bucket { sequence, items: h })
                } else {
                    held[i]
                },
                Item::Value { .. } => held[i],
            },
    )
}

/// What a bucket holds once the bucket that a path leads to holds `h`.
pub open spec fn renewed(held: Seq<(Key, Item)>, path: Seq<Key>, h: Seq<(Key, Item)>) -> Seq<(Key, Item)>
    decreases path.len(),
{
    if path.len() == 0 {
        h
    } else {
        match held_at(held, path.drop_last()) {
            Some(up) => renewed(held, path.drop_last(), with_bucket(up, path.last(), h)),
            None => held,
        }
    }
}

/// Bucket `d` is bucket `b`, or around it.
spec fn around(bs: Seq<BucketInner>, d: int, b: int) -> bool
    decreases b,
{
    d == b || 0 < b < bs.len() && bs[b].parent < b && around(bs, d, bs[b].parent as int)
}

proof fn lemma_around_less(bs: Seq<BucketInner>, d: int, b: int)
    requires
        around(bs, d, b),
    ensures
        d <= b,
    decreases b,
{
    if d != b {
        lemma_around_less(bs, d, bs[b].parent as int);
    }
}

/// What is around a bucket around another is around that one.
proof fn lemma_around_up(bs: Seq<BucketInner>, base: Base, d: int, b: int)
    requires
        linked(bs, base),
        0 <= b < bs.len(),
        bs[b].live,
        around(bs, d, b),
        0 < d,
    ensures
        d < bs.len(),
        bs[d].live,
        known(bs, d),
        around(bs, bs[d].parent as int, b),
    decreases b,
{
    if d == b {
        assert(known(bs, b));
        assert(around(bs, bs[b].parent as int, bs[b].parent as int));
    } else {
        assert(known(bs, b));
        lemma_around_up(bs, base, d, bs[b].parent as int);
    }
}

/// Of two buckets around a third one the one is around the other.
proof fn lemma_around_chain(bs: Seq<BucketInner>, d: int, e: int, b: int)
    requires
        around(bs, d, b),
        around(bs, e, b),
        d < e,
    ensures
        around(bs, d, e),
    decreases b,
{
    lemma_around_less(bs, e, b);
    if e != b {
        lemma_around_chain(bs, d, e, bs[b].parent as int);
    }
}

/// A nested bucket that is open is known by its name.
proof fn lemma_known_sub(bs: Seq<BucketInner>, base: Base, d: int)
    requires
        linked(bs, base),
        0 < d < bs.len(),
        bs[d].live,
    ensures
        known(bs, d),
        sub_id(bs[bs[d].parent as int].subbuckets@, bs[d].name@) == Some(d as usize),
{
    assert(known(bs, d));
    let q = bs[d].parent as int;
    let i = choose|i: int| 0 <= i < bs[q].subbuckets@.len() && (#[trigger] bs[q].subbuckets@[i]).1 == d;
    assert(bs[q].subbuckets@[i].1 == d);
    assert(subs_linked(bs, base, q));
    let j = lemma_sub_id(bs[q].subbuckets@, bs[d].name@);
    assert(bs[q].subbuckets@[i].0@ == bs[d].name@);
    assert(bs[q].subbuckets@[j].0@ == bs[d].name@);
    if i != j {
        assert(bs[q].subbuckets@[i].0@ != bs[q].subbuckets@[j].0@);
    }
}

/// The open bucket of a name has that name.
proof fn lemma_sub_known(bs: Seq<BucketInner>, base: Base, q: int, name: Key)
    requires
        linked(bs, base),
        0 <= q < bs.len(),
        bs[q].live,
        sub_id(bs[q].subbuckets@, name) is Some,
    ensures
        ({
            let e = sub_id(bs[q].subbuckets@, name)->0 as int;
            &&& q < e < bs.len()
            &&& bs[e].live
            &&& bs[e].parent == q
            &&& bs[e].name@ == name
        }),
{
    assert(subs_linked(bs, base, q));
    let j = lemma_sub_id(bs[q].subbuckets@, name);
    assert(bs[q].subbuckets@[j].0@ == name);
}

/// A bucket that is not around the changed one holds what it held.
proof fn lemma_elsewhere(before: TxInner, after: TxInner, b: int, d: int)
    requires
        before.good(),
        before.has(b),
        before.has(d),
        only_in(before, after, b),
        !around(before.buckets@, d, b),
    ensures
        open_contents(after.buckets@, after.base@, d) == open_contents(before.buckets@, before.base@, d),
    decreases before.buckets@.len() - d,
{
    let bs = before.buckets@;
    let cs = after.buckets@;
    let base = before.base@;
    let s = bs[d].items(base);
    lemma_kept(cs[d], bs[d], base);
    assert forall|i: int| 0 <= i < s.len() implies open_entry(cs, base, d, s[i]) == open_entry(bs, base, d, s[i]) by {
        if sub_id(bs[d].subbuckets@, s[i].key) is Some {
            let e = sub_id(bs[d].subbuckets@, s[i].key)->0 as int;
            lemma_sub_known(bs, base, d, s[i].key);
            if around(bs, e, b) {
                lemma_around_up(bs, base, e, b);
            }
            lemma_elsewhere(before, after, b, e);
            assert(e != b);
            lemma_kept(cs[e], bs[e], base);
        }
    }
    assert(open_contents(cs, base, d) =~= open_contents(bs, base, d));
}

/// A bucket around the changed one holds what it held but for the nested bucket on the way.
proof fn lemma_one_up(before: TxInner, after: TxInner, b: int, d: int)
    requires
        before.good(),
        before.has(b),
        before.has(d),
        0 < d,
        only_in(before, after, b),
        around(before.buckets@, d, b),
    ensures
        known(before.buckets@, d),
        ({
            let q = before.buckets@[d].parent as int;
            open_contents(after.buckets@, after.base@, q) == with_bucket(
                open_contents(before.buckets@, before.base@, q),
                before.buckets@[d].name@,
                open_contents(after.buckets@, after.base@, d),
            )
        }),
{
    let bs = before.buckets@;
    let cs = after.buckets@;
    let base = before.base@;
    lemma_known_sub(bs, base, d);
    lemma_around_less(bs, d, b);
    let q = bs[d].parent as int;
    let name = bs[d].name@;
    let s = bs[q].items(base);
    assert(q != b);
    lemma_kept(cs[q], bs[q], base);
    let x = open_contents(cs, base, q);
    let y = with_bucket(open_contents(bs, base, q), name, open_contents(cs, base, d));
    assert forall|i: int| 0 <= i < s.len() implies x[i] == y[i] by {
        assert(x[i] == open_entry(cs, base, q, s[i]));
        assert(open_contents(bs, base, q)[i] == open_entry(bs, base, q, s[i]));
        if s[i].key == name {
            if d != b {
                lemma_kept(cs[d], bs[d], base);
            }
        } else if sub_id(bs[q].subbuckets@, s[i].key) is Some {
            let e = sub_id(bs[q].subbuckets@, s[i].key)->0 as int;
            lemma_sub_known(bs, base, q, s[i].key);
            if around(bs, e, b) {
                if d < e {
                    lemma_around_chain(bs, d, e, b);
                    lemma_around_less(bs, d, bs[e].parent as int);
                } else {
                    lemma_around_chain(bs, e, d, b);
                    lemma_around_less(bs, e, bs[d].parent as int);
                }
            }
            lemma_elsewhere(before, after, b, e);
            lemma_kept(cs[e], bs[e], base);
        }
    }
    assert(x =~= y);
}

proof fn lemma_ripple_from(before: TxInner, after: TxInner, b: int, d: int)
    requires
        before.good(),
        before.has(b),
        before.has(d),
        only_in(before, after, b),
        around(before.buckets@, d, b),
    ensures
        open_contents(after.buckets@, after.base@, 0) == renewed(
            open_contents(before.buckets@, before.base@, 0),
            way_to(before.buckets@, d),
            open_contents(after.buckets@, after.base@, d),
        ),
    decreases d,
{
    let bs = before.buckets@;
    if d > 0 {
        lemma_one_up(before, after, b, d);
        lemma_around_up(bs, before.base@, d, b);
        let q = bs[d].parent as int;
        lemma_ripple_from(before, after, b, q);
        lemma_way_contents(before, q);
        assert(way_to(bs, d).drop_last() =~= way_to(bs, q));
    }
}

/// A change in a nested bucket changes what the root bucket holds at the end of the path of the
/// bucket, and nowhere else.
pub proof fn lemma_ripple(before: TxInner, after: TxInner, b: int)
    requires
        before.good(),
        before.has(b),
        only_in(before, after, b),
    ensures
        open_contents(after.buckets@, after.base@, 0) == renewed(
            open_contents(before.buckets@, before.base@, 0),
            way_to(before.buckets@, b),
            open_contents(after.buckets@, after.base@, b),
        ),
{
    lemma_ripple_from(before, after, b, b);
}

/// A bucket that was opened after the changed one holds what it held.
pub proof fn lemma_behind(before: TxInner, after: TxInner, b: int, d: int)
    requires
        before.good(),
        before.has(b),
        before.has(d),
        only_in(before, after, b),
        b < d,
    ensures
        open_contents(after.buckets@, after.base@, d) == open_contents(before.buckets@, before.base@, d),
{
    if around(before.buckets@, d, b) {
        lemma_around_less(before.buckets@, d, b);
    }
    lemma_elsewhere(before, after, b, d);
}

/// What an element of the changed bucket stands for stays, where the same bucket is open for it.
pub proof fn lemma_sub_entry(before: TxInner, after: TxInner, b: int, item: InodeV)
    requires
        before.good(),
        before.has(b),
        only_in(before, after, b),
        sub_id(after.buckets@[b].subbuckets@, item.key) == sub_id(before.buckets@[b].subbuckets@, item.key),
    ensures
        open_entry(after.buckets@, before.base@, b, item) == open_entry(before.buckets@, before.base@, b, item),
{
    let bs = before.buckets@;
    if sub_id(bs[b].subbuckets@, item.key) is Some {
        let e = sub_id(bs[b].subbuckets@, item.key)->0 as int;
        assert(subs_linked(bs, before.base@, b));
        let j = lemma_sub_id(bs[b].subbuckets@, item.key);
        assert(bs[b].subbuckets@[j].1 == e);
        assert(before.has(e));
        lemma_behind(before, after, b, e);
        lemma_kept(after.buckets@[e], bs[e], before.base@);
    }
}

/// The path of a bucket stays the same whatever else is opened.
pub proof fn lemma_same_way(bs: Seq<BucketInner>, cs: Seq<BucketInner>, b: int)
    requires
        0 <= b < bs.len() <= cs.len(),
        forall|d: int| 0 <= d < bs.len() ==> (#[trigger] cs[d]).parent == bs[d].parent && cs[d].name@ == bs[d].name@,
    ensures
        way_to(cs, b) == way_to(bs, b),
    decreases b,
{
    assert(cs[b].parent == bs[b].parent);
    if 0 < b && bs[b].parent < b {
        lemma_same_way(bs, cs, bs[b].parent as int);
    }
}

// ---------------------------------------------------------------------------------------------
// Changes at the end of a path.

/// What was put at the end of a path is there.
pub proof fn lemma_renewed_at(held: Seq<(Key, Item)>, path: Seq<Key>, h: Seq<(Key, Item)>)
    requires
        held_at(held, path) is Some,
    ensures
        held_at(renewed(held, path, h), path) == Some(h),
    decreases path.len(),
{
    if path.len() > 0 {
        let up = held_at(held, path.drop_last())->0;
        let name = path.last();
        let x = with_bucket(up, name, h);
        lemma_renewed_at(held, path.drop_last(), x);
        let i = choose|i: int| 0 <= i < up.len() && (#[trigger] up[i]).0 == name && up[i].1 is Bucket;
        assert(up[i].0 == name && up[i].1 is Bucket);
        assert(x[i].0 == name && x[i].1 is Bucket);
        assert forall|j: int| 0 <= j < x.len() && (#[trigger] x[j]).0 == name && x[j].1 is Bucket implies x[j].1->items == h by {
            assert(up[j].0 == name && up[j].1 is Bucket);
        }
        assert(bucket_in(x, name) == Some(h));
    }
}

/// Of two changes at the end of a path the second one stays.
pub proof fn lemma_renewed_twice(held: Seq<(Key, Item)>, path: Seq<Key>, g: Seq<(Key, Item)>, h: Seq<(Key, Item)>)
    requires
        held_at(held, path) is Some,
    ensures
        renewed(renewed(held, path, g), path, h) == renewed(held, path, h),
    decreases path.len(),
{
    if path.len() > 0 {
        let up = held_at(held, path.drop_last())->0;
        let name = path.last();
        let x = with_bucket(up, name, g);
        lemma_renewed_at(held, path.drop_last(), x);
        assert(with_bucket(x, name, h) =~= with_bucket(up, name, h));
        lemma_renewed_twice(held, path.drop_last(), x, with_bucket(up, name, h));
    }
}

} // verus!
