//! What the open buckets of a transaction hold together, and closing them one by one: each becomes
//! a value in the bucket around it.
use vstd::prelude::*;
use crate::bucket::{names, unsplit, BucketId, BucketInner};
use crate::contents::{contents, entry, item_refs, lemma_contents, lemma_nested_but, lemma_nested_grows, lemma_nested_with, lemma_paired, Item};
use crate::inode::InodeV;
use crate::nesting::lemma_cut_names;
use crate::node::Base;
use crate::page::Pgid;
use crate::release::claim;
use crate::spill::lemma_node_grows;
use crate::tree::{alike, at_key, is_bucket, lemma_alike_uses, lemma_pos, lemma_with_item, pos, with_item, Key};
use crate::tx::{as_stored, bucket_at, bucket_refs, known, lemma_sub_at, lemma_sub_id, lemma_total_update, linked, sub_id, subs_linked, total};
use crate::writer::{extends, lemma_item_grows};

verus! {

/// What an element of bucket `b` stands for: for a nested bucket that is open, what that one holds.
pub open spec fn open_entry(bs: Seq<BucketInner>, base: Base, b: int, item: InodeV) -> (Key, Item)
    decreases bs.len() - b, 0int,
{
    match sub_id(bs[b].subbuckets@, item.key) {
        Some(c) => if b < c < bs.len() {
            (
                item.key,
                Item::Bucket { sequence: bs[c as int].header.sequence, items: open_contents(bs, base, c as int) },
            )
        } else {
            entry(item, base.sub(item))
        },
        None => entry(item, base.sub(item)),
    }
}

/// What bucket `b` holds, with all that is nested in it.
pub open spec fn open_contents(bs: Seq<BucketInner>, base: Base, b: int) -> Seq<(Key, Item)>
    decreases bs.len() - b, 1int,
{
    Seq::new(bs[b].items(base).len(), |i: int| open_entry(bs, base, b, bs[b].items(base)[i]))
}

/// A bucket without open ones in it holds what its tree holds.
pub proof fn lemma_closed_contents(bs: Seq<BucketInner>, base: Base, b: int, tight: bool)
    requires
        base.ok(),
        bs[b].ok(base, tight),
        bs[b].subbuckets@.len() == 0,
    ensures
        open_contents(bs, base, b) == contents(bs[b].tree(base)),
{
    let t = bs[b].tree(base);
    bs[b].lemma_items(base, tight);
    lemma_paired(t, None, None, tight, 2);
    lemma_contents(t);
    assert forall|i: int| 0 <= i < t.items().len() implies open_contents(bs, base, b)[i] == contents(t)[i] by {
        assert(sub_id(bs[b].subbuckets@, t.items()[i].key) is None);
        assert(open_entry(bs, base, b, t.items()[i]) == entry(t.items()[i], base.sub(t.items()[i])));
    }
    assert(open_contents(bs, base, b) =~= contents(t));
}

/// Bucket `d`, entry `r` of the bucket around it, is closed: its element there becomes `v`.
pub open spec fn closes(
    bs: Seq<BucketInner>,
    base: Base,
    cs: Seq<BucketInner>,
    base1: Base,
    d: int,
    r: int,
    v: InodeV,
) -> bool {
    let q = bs[d].parent as int;
    let subs = bs[q].subbuckets@;
    &&& base.ok()
    &&& base1.ok()
    &&& extends(base, base1)
    &&& linked(bs, base)
    &&& forall|b: int| #![trigger bs[b]] 0 <= b < bs.len() && bs[b].live ==> bs[b].ok(base, false) && b <= d
    &&& 0 < d < bs.len()
    &&& bs[d].live
    &&& bs[d].subbuckets@.len() == 0
    &&& 0 <= r < subs.len()
    &&& subs[r].1 == d
    &&& cs.len() == bs.len()
    &&& !cs[d].live
    &&& forall|b: int| #![trigger cs[b]] 0 <= b < bs.len() && b != d && b != q ==> cs[b] == bs[b]
    &&& cs[q] == (BucketInner { root_node: cs[q].root_node, subbuckets: cs[q].subbuckets, ..bs[q] })
    &&& cs[q].subbuckets@ == subs.remove(r)
    &&& cs[q].ok(base1, false)
    &&& cs[q].items(base1) == with_item(bs[q].items(base), v)
    &&& cs[q].root_node is Some || cs[q].root_node == bs[q].root_node && v == at_key(bs[q].items(base), v.key)->0
    &&& alike(bs[q].tree(base), cs[q].tree(base1))
    &&& v.key == subs[r].0@
    &&& is_bucket(v)
}

/// More pages change nothing in a bucket.
pub proof fn lemma_bucket_grows(b: BucketInner, base: Base, base1: Base, tight: bool)
    requires
        base.ok(),
        extends(base, base1),
        b.ok(base, tight),
    ensures
        b.ok(base1, tight),
        b.tree(base1) == b.tree(base),
        b.items(base1) == b.items(base),
        forall|p: Pgid| #[trigger] bucket_refs(b, base1, p) == bucket_refs(b, base, p),
{
    match b.root_node {
        Some(n) => {
            lemma_node_grows(*n, base, base1);
            n.lemma_shape(base);
            assert(n.pgid != 0 ==> base.forest.contains_key(n.pgid));
        },
        None => {
            if b.header.root != 0 {
                assert(base.forest.contains_key(b.header.root));
            }
        },
    }
    reveal(unsplit);
    b.lemma_items(base, tight);
    assert forall|p: Pgid| #[trigger] bucket_refs(b, base1, p) == bucket_refs(b, base, p) by {
        lemma_nested_grows(base, base1, b.items(base), b.opened(), p);
    }
}

/// More pages change nothing in how often pages are used.
pub proof fn lemma_total_grows(bs: Seq<BucketInner>, base: Base, base1: Base, tight: bool, p: Pgid)
    requires
        base.ok(),
        extends(base, base1),
        forall|b: int| #![trigger bs[b]] 0 <= b < bs.len() && bs[b].live ==> bs[b].ok(base, tight),
    ensures
        total(bs, base1, p) == total(bs, base, p),
    decreases bs.len(),
{
    if bs.len() > 0 {
        let rest = bs.drop_last();
        assert forall|b: int| #![trigger rest[b]] 0 <= b < rest.len() && rest[b].live implies rest[b].ok(base, tight) by {
            assert(rest[b] == bs[b]);
        }
        lemma_total_grows(rest, base, base1, tight, p);
        let last = bs[bs.len() - 1];
        if last.live {
            lemma_bucket_grows(last, base, base1, tight);
            assert(bucket_refs(last, base1, p) == bucket_refs(last, base, p));
        }
    }
}

/// What is true of a bucket that stays open.
proof fn lemma_stays(bs: Seq<BucketInner>, base: Base, cs: Seq<BucketInner>, base1: Base, d: int, r: int, v: InodeV, b: int)
    requires
        closes(bs, base, cs, base1, d, r, v),
        0 <= b < bs.len(),
        cs[b].live,
    ensures
        b < d,
        bs[b].live,
        bs[b].ok(base, false),
        cs[b].ok(base1, false),
        b != bs[d].parent ==> cs[b].items(base1) == bs[b].items(base) && cs[b] == bs[b],
        bs[d].parent < d,
        subs_linked(bs, base, b),
        bs[d].parent == bs[d].parent && bs[bs[d].parent as int].live,
{
    assert(bs[b].live);
    assert(known(bs, d));
    if b != bs[d].parent {
        lemma_bucket_grows(bs[b], base, base1, false);
    }
}

/// The buckets that are still open hang together.
pub proof fn lemma_closes_linked(
    bs: Seq<BucketInner>,
    base: Base,
    cs: Seq<BucketInner>,
    base1: Base,
    d: int,
    r: int,
    v: InodeV,
)
    requires
        closes(bs, base, cs, base1, d, r, v),
    ensures
        linked(cs, base1),
        forall|b: int| #![trigger cs[b]] 0 <= b < cs.len() && cs[b].live ==> cs[b].ok(base1, false) && b < d,
        forall|b: int| #![trigger cs[b]] 0 <= b < cs.len() && b != d ==> cs[b].live == bs[b].live,
{
    let q = bs[d].parent as int;
    assert(known(bs, d));
    assert(subs_linked(bs, base, q));
    assert(bs[q].ok(base, false));
    bs[q].lemma_items(base, false);
    lemma_with_item(bs[q].items(base), v);
    assert(cs[0].live);
    assert forall|x: int| #![trigger cs[x]] 0 <= x < cs.len() && cs[x].live implies subs_linked(cs, base1, x) by {
        lemma_closes_subs(bs, base, cs, base1, d, r, v, x);
    }
    assert forall|x: int| #![trigger cs[x]] 0 < x < cs.len() && cs[x].live implies known(cs, x) by {
        assert(bs[x].live);
        assert(known(bs, x));
        let o = bs[x].parent as int;
        let i = choose|i: int| 0 <= i < bs[o].subbuckets@.len() && (#[trigger] bs[o].subbuckets@[i]).1 == x;
        assert(bs[o].subbuckets@[i].1 == x);
        assert(subs_linked(bs, base, o));
        assert(o != d);
        if o == q {
            assert(i != r);
            let j = if i < r { i } else { i - 1 };
            assert(cs[o].subbuckets@[j] == bs[o].subbuckets@[i]);
            assert(cs[o].subbuckets@[j].1 == x);
        } else {
            assert(cs[o].subbuckets@[i].1 == x);
        }
    }
    assert forall|b: int| #![trigger cs[b]] 0 <= b < cs.len() && cs[b].live implies cs[b].ok(base1, false) && b < d by {
        lemma_stays(bs, base, cs, base1, d, r, v, b);
    }
}

proof fn lemma_closes_subs(
    bs: Seq<BucketInner>,
    base: Base,
    cs: Seq<BucketInner>,
    base1: Base,
    d: int,
    r: int,
    v: InodeV,
    x: int,
)
    requires
        closes(bs, base, cs, base1, d, r, v),
        0 <= x < cs.len(),
        cs[x].live,
    ensures
        subs_linked(cs, base1, x),
{
    let q = bs[d].parent as int;
    lemma_stays(bs, base, cs, base1, d, r, v, x);
    assert(subs_linked(bs, base, q));
    assert(bs[q].ok(base, false));
    bs[q].lemma_items(base, false);
    lemma_with_item(bs[q].items(base), v);
    let us = bs[x].subbuckets@;
    let vs = cs[x].subbuckets@;
    let subs = bs[q].subbuckets@;
    assert(bs[d].name@ == subs[r].0@);
    assert forall|i: int| 0 <= i < vs.len() implies {
        let c = (#[trigger] vs[i]).1;
        &&& x < c < cs.len()
        &&& cs[c as int].live
        &&& cs[c as int].parent == x
        &&& cs[c as int].name@ == vs[i].0@
        &&& bucket_at(cs[x].items(base1), vs[i].0@)
        &&& as_stored(cs[c as int], at_key(cs[x].items(base1), vs[i].0@)->0)
    } by {
        let j = if x == q && i >= r { i + 1 } else { i };
        assert(vs[i] == us[j]);
        let c = us[j].1 as int;
        assert(bs[c].parent == x);
        assert(bs[c].name@ == us[j].0@);
        assert(bucket_at(bs[x].items(base), us[j].0@));
        if x == q {
            if j < r {
                assert(subs[j].0@ != subs[r].0@);
            } else {
                assert(subs[r].0@ != subs[j].0@);
            }
            assert(at_key(with_item(bs[q].items(base), v), us[j].0@) == at_key(bs[q].items(base), us[j].0@));
        }
        assert(c != d);
    }
    assert forall|i: int, j: int| 0 <= i < j < vs.len() implies (#[trigger] vs[i]).0@ != (#[trigger] vs[j]).0@ by {
        let i2 = if x == q && i >= r { i + 1 } else { i };
        let j2 = if x == q && j >= r { j + 1 } else { j };
        assert(vs[i] == us[i2]);
        assert(vs[j] == us[j2]);
        assert(us[i2].0@ != us[j2].0@);
    }
}

/// The name of an open bucket is found where it is still listed.
proof fn lemma_sub_id_removed(subs: Seq<(Vec<u8>, BucketId)>, r: int, key: Key)
    requires
        0 <= r < subs.len(),
        forall|i: int, j: int| 0 <= i < j < subs.len() ==> (#[trigger] subs[i]).0@ != (#[trigger] subs[j]).0@,
    ensures
        key != subs[r].0@ ==> sub_id(subs.remove(r), key) == sub_id(subs, key),
        key == subs[r].0@ ==> sub_id(subs.remove(r), key) is None && sub_id(subs, key) == Some(subs[r].1),
{
    let vs = subs.remove(r);
    lemma_sub_at(subs, r);
    let i = lemma_sub_id(vs, key);
    let j = lemma_sub_id(subs, key);
    assert forall|a: int, b: int| 0 <= a < b < vs.len() implies (#[trigger] vs[a]).0@ != (#[trigger] vs[b]).0@ by {
        let a2 = if a >= r { a + 1 } else { a };
        let b2 = if b >= r { b + 1 } else { b };
        assert(vs[a] == subs[a2]);
        assert(vs[b] == subs[b2]);
        assert(subs[a2].0@ != subs[b2].0@);
    }
    if key == subs[r].0@ {
        if sub_id(vs, key) is Some {
            let i2 = if i >= r { i + 1 } else { i };
            assert(vs[i] == subs[i2]);
            if i2 < r {
                assert(subs[i2].0@ != subs[r].0@);
            } else {
                assert(subs[r].0@ != subs[i2].0@);
            }
        }
    } else {
        if sub_id(subs, key) is Some {
            let j2 = if j > r { j - 1 } else { j };
            assert(vs[j2] == subs[j]);
            lemma_sub_at(vs, j2);
        } else if sub_id(vs, key) is Some {
            let i2 = if i >= r { i + 1 } else { i };
            assert(vs[i] == subs[i2]);
            assert(subs[i2].0@ != key);
        }
    }
}

/// Closing a bucket changes nothing in what the others hold.
pub proof fn lemma_closes_contents(
    bs: Seq<BucketInner>,
    base: Base,
    cs: Seq<BucketInner>,
    base1: Base,
    d: int,
    r: int,
    v: InodeV,
    b: int,
)
    requires
        closes(bs, base, cs, base1, d, r, v),
        0 <= b < bs.len(),
        cs[b].live,
        entry(v, base1.sub(v)) == (
            v.key,
            Item::Bucket { sequence: bs[d].header.sequence, items: open_contents(bs, base, d) },
        ),
    ensures
        open_contents(cs, base1, b) == open_contents(bs, base, b),
    decreases bs.len() - b,
{
    let q = bs[d].parent as int;
    lemma_stays(bs, base, cs, base1, d, r, v, b);
    assert(subs_linked(bs, base, q));
    assert(bs[q].ok(base, false));
    let s = bs[b].items(base);
    let t = cs[b].items(base1);
    bs[b].lemma_items(base, false);
    let us = bs[b].subbuckets@;
    let vs = cs[b].subbuckets@;
    if b == q {
        assert(bucket_at(s, us[r].0@));
        lemma_pos(s, v.key);
    }
    assert(t.len() == s.len());
    assert forall|i: int| 0 <= i < s.len() implies open_contents(cs, base1, b)[i] == open_contents(bs, base, b)[i] by {
        let k = s[i].key;
        assert(open_contents(bs, base, b)[i] == open_entry(bs, base, b, s[i]));
        assert(open_contents(cs, base1, b)[i] == open_entry(cs, base1, b, t[i]));
        assert(base.item_ok(s[i]));
        lemma_item_grows(base, base1, s[i]);
        if b == q {
            lemma_sub_id_removed(us, r, k);
            let z = pos(s, v.key);
            if i == z {
                assert(t[i] == v);
            } else {
                assert(t[i] == s[i]);
                if i < z {
                    crate::order::lemma_asymmetric(s[i].key, s[z].key);
                } else {
                    crate::order::lemma_asymmetric(s[z].key, s[i].key);
                }
            }
        } else {
            assert(t[i] == s[i]);
        }
        if !(b == q && k == v.key) {
            match sub_id(us, k) {
                Some(c) => {
                    let j = lemma_sub_id(us, k);
                    assert(us[j].1 == c);
                    assert(bs[c as int].parent == b);
                    assert(bs[c as int].name@ == us[j].0@);
                    assert(bs[d].name@ == bs[q].subbuckets@[r].0@);
                    assert(c != d);
                    assert(cs[c as int].live);
                    assert(cs[c as int].header == bs[c as int].header);
                    lemma_closes_contents(bs, base, cs, base1, d, r, v, c as int);
                },
                None => {},
            }
        }
    }
    assert(open_contents(cs, base1, b) =~= open_contents(bs, base, b));
}

/// Closing a bucket counts the pages of its new value in place of its own.
pub proof fn lemma_closes_total(
    bs: Seq<BucketInner>,
    base: Base,
    cs: Seq<BucketInner>,
    base1: Base,
    d: int,
    r: int,
    v: InodeV,
    p: Pgid,
)
    requires
        closes(bs, base, cs, base1, d, r, v),
    ensures
        total(cs, base1, p) + claim(base, bs[d].tree(base), Set::empty(), p) == total(bs, base, p) + item_refs(
            base1,
            v,
            p,
        ),
{
    let q = bs[d].parent as int;
    let name = bs[q].subbuckets@[r].0@;
    assert(known(bs, d));
    assert(subs_linked(bs, base, q));
    assert(bs[q].ok(base, false));
    assert(bs[d].ok(base, false));
    assert forall|b: int| #![trigger bs[b]] 0 <= b < bs.len() && bs[b].live implies bs[b].ok(base, false) by {
    }
    lemma_total_grows(bs, base, base1, false, p);
    lemma_bucket_grows(bs[q], base, base1, false);
    lemma_bucket_grows(bs[d], base, base1, false);
    let ds = bs.update(d, cs[d]);
    lemma_total_update(bs, d, cs[d], base1, p);
    lemma_total_update(ds, q, cs[q], base1, p);
    assert(ds.update(q, cs[q]) =~= cs);
    assert(ds[q] == bs[q]);
    let s = bs[q].items(base);
    bs[q].lemma_items(base1, false);
    lemma_cut_names(bs[q].subbuckets@, r);
    assert(bucket_at(s, name));
    let but = names(cs[q].subbuckets@);
    lemma_nested_with(base1, s, v, but, p);
    lemma_nested_but(base1, s, name, but, p);
    lemma_alike_uses(bs[q].tree(base), cs[q].tree(base1));
    assert(bs[q].tree(base).uses(p) == cs[q].tree(base1).uses(p));
    assert(names(bs[d].subbuckets@) =~= Set::<Key>::empty());
    assert(bucket_refs(bs[d], base1, p) == bucket_refs(bs[d], base, p));
}

} // verus!
