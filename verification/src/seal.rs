//! Sealing: a bucket that was changed is written, and becomes a value in the bucket around it.
use vstd::prelude::*;
use crate::bucket::{bucket_value, BucketInner};
use crate::budget::root_cost;
use crate::contents::{contents, entry, inline_contents, item_refs, lemma_contents, lemma_nested_all, lemma_nested_grows, lemma_nested_none, lemma_page_subs, lemma_paired, Item};
use crate::demand::lemma_wide_cost;
use crate::error::Result;
use crate::freelist::{Freelist, FreelistV};
use crate::inode::{data_len, decode, inodes_size, lemma_storable, lemma_written_decodes, page_len, storable_at, views, write_inodes, Inode, InodeV};
use crate::layout::laid_root;
use crate::ledger::{free_page, lemma_since_same, listed};
use crate::node::{inline_ok, inline_page, inline_tree, Base, Node};
use crate::page::{in_bucket_at, BUCKET_LEAF_FLAG, InBucket, Pgid};
use crate::pieces::{grew_by, halted, lemma_grew_none, root_pieces};
use crate::release::claim;
use crate::spill::{few_fit, fits, lemma_freed, root_of_spilled, spill_root, tidy, went_on};
use crate::terms::lemma_odd_flags;
use crate::tree::{has_key, is_bucket, key_ok, lemma_refs_split, pos, root_of, sequence_of, with_item, Key, Tree};
use crate::writer::{lemma_zero_header, spare, stuck, Writer};

verus! {

// ---------------------------------------------------------------------------------------------
// Sizes. A nested bucket is counted with a whole page at least: its value may become that large.

/// The size of an element with its record.
pub open spec fn weight(item: InodeV, page_size: int) -> int {
    16 + item.key.len() + (if is_bucket(item) && item.value.len() < page_size {
        page_size
    } else {
        item.value.len() as int
    })
}

/// The size of a page with these elements.
pub open spec fn wide(items: Seq<InodeV>, page_size: int) -> int
    decreases items.len(),
{
    if items.len() == 0 {
        16
    } else {
        wide(items.drop_last(), page_size) + weight(items.last(), page_size)
    }
}

/// An element with a value that is as long as it may become.
pub open spec fn widest(item: InodeV, page_size: int) -> InodeV {
    if is_bucket(item) && item.value.len() < page_size {
        InodeV { value: Seq::new(page_size as nat, |i: int| 0u8), ..item }
    } else {
        item
    }
}

/// Elements with values that are as long as they may become.
pub open spec fn widened(items: Seq<InodeV>, page_size: int) -> Seq<InodeV> {
    Seq::new(items.len(), |i: int| widest(items[i], page_size))
}

/// The elements can be stored, whatever becomes of nested buckets.
pub open spec fn wide_fits(items: Seq<InodeV>, page_size: int) -> bool {
    fits(widened(items, page_size), page_size)
}

/// The same keys with values that are no longer.
pub open spec fn no_longer(a: Seq<InodeV>, b: Seq<InodeV>) -> bool {
    &&& a.len() == b.len()
    &&& forall|i: int|
        0 <= i < a.len() ==> (#[trigger] a[i]).key.len() == b[i].key.len() && a[i].value.len() <= b[i].value.len()
}

proof fn lemma_shorter(a: Seq<InodeV>, b: Seq<InodeV>)
    requires
        no_longer(a, b),
    ensures
        data_len(a) <= data_len(b),
    decreases a.len(),
{
    if a.len() > 0 {
        assert(a[a.len() - 1].value.len() <= b[a.len() - 1].value.len());
        let (c, d) = (a.drop_last(), b.drop_last());
        assert forall|i: int| 0 <= i < c.len() implies (#[trigger] c[i]).key.len() == d[i].key.len() && c[i].value.len()
            <= d[i].value.len() by {
            assert(a[i].value.len() <= b[i].value.len());
        }
        lemma_shorter(c, d);
    }
}

/// Where longer values fit shorter ones do.
proof fn lemma_shorter_fit(a: Seq<InodeV>, b: Seq<InodeV>, page_size: int)
    requires
        no_longer(a, b),
        fits(b, page_size),
    ensures
        fits(a, page_size),
{
    assert forall|i: int, j: int| 0 <= i <= j <= a.len() && j - i <= 4 implies few_fit(
        #[trigger] a.subrange(i, j),
        page_size,
    ) by {
        let (s, t) = (a.subrange(i, j), b.subrange(i, j));
        assert(few_fit(t, page_size));
        assert forall|k: int| 0 <= k < s.len() implies (#[trigger] s[k]).key.len() == t[k].key.len() && s[k].value.len()
            <= t[k].value.len() by {
            assert(a[i + k].value.len() <= b[i + k].value.len());
        }
        lemma_shorter(s, t);
        assert forall|k: int| 0 <= k < s.len() implies #[trigger] storable_at(s, k) by {
            assert(storable_at(t, k));
            assert(s[k].value.len() <= t[k].value.len());
            let (x, y) = (s.take(k), t.take(k));
            assert forall|m: int| 0 <= m < x.len() implies (#[trigger] x[m]).key.len() == y[m].key.len()
                && x[m].value.len() <= y[m].value.len() by {
                assert(s[m].value.len() <= t[m].value.len());
            }
            lemma_shorter(x, y);
        }
    }
}

pub proof fn lemma_wide(s: Seq<InodeV>, page_size: int)
    ensures
        page_len(s) <= wide(s, page_size),
    decreases s.len(),
{
    if s.len() > 0 {
        lemma_wide(s.drop_last(), page_size);
    }
}

/// What fits in any case fits.
pub proof fn lemma_wide_fits(s: Seq<InodeV>, page_size: int)
    requires
        wide_fits(s, page_size),
    ensures
        fits(s, page_size),
{
    lemma_shorter_fit(s, widened(s, page_size), page_size);
}

proof fn lemma_wide_update(s: Seq<InodeV>, k: int, v: InodeV, page_size: int)
    requires
        0 <= k < s.len(),
    ensures
        wide(s.update(k, v), page_size) == wide(s, page_size) - weight(s[k], page_size) + weight(v, page_size),
    decreases s.len(),
{
    let t = s.update(k, v);
    if k == s.len() - 1 {
        assert(t.drop_last() =~= s.drop_last());
    } else {
        lemma_wide_update(s.drop_last(), k, v, page_size);
        assert(t.drop_last() =~= s.drop_last().update(k, v));
    }
}

/// A nested bucket with a new value that is no larger than a page fits.
pub proof fn lemma_wide_with(s: Seq<InodeV>, v: InodeV, page_size: int)
    requires
        wide_fits(s, page_size),
        has_key(s, v.key),
        0 <= pos(s, v.key),
        is_bucket(s[pos(s, v.key)]),
        v.value.len() <= page_size,
    ensures
        wide_fits(with_item(s, v), page_size),
        with_item(s, v).len() == s.len(),
        wide(with_item(s, v), page_size) <= wide(s, page_size),
{
    let q = pos(s, v.key);
    let t = with_item(s, v);
    assert(t == s.update(q, v));
    lemma_wide_update(s, q, v, page_size);
    lemma_shorter_fit(widened(t, page_size), widened(s, page_size), page_size);
}

// ---------------------------------------------------------------------------------------------
// Inline buckets.

/// A bucket is kept inside the one around it if it is one leaf without nested buckets that takes
/// no more than a quarter of a page.
pub open spec fn inline_fit(n: Node, page_size: int) -> bool {
    &&& n.is_leaf
    &&& forall|i: int| 0 <= i < n.inodes@.len() ==> !is_bucket((#[trigger] n.inodes@[i])@)
    &&& n.inodes@.len() > 0 ==> page_len(views(n.inodes@)) <= page_size / 4
}

/// Whether a bucket can be kept inside the one around it.
pub fn inlineable(n: &Node, page_size: usize) -> (r: bool)
    requires
        1024 <= page_size,
        n.is_leaf ==> fits(views(n.inodes@), page_size as int),
    ensures
        r == inline_fit(*n, page_size as int),
{
    if !n.is_leaf {
        return false;
    }
    let ghost v = views(n.inodes@);
    let mut size: usize = 16;
    let mut i: usize = 0;
    assert(v.take(0) =~= Seq::<InodeV>::empty());
    while i < n.inodes.len()
        invariant
            n.is_leaf,
            1024 <= page_size,
            v == views(n.inodes@),
            fits(v, page_size as int),
            i <= n.inodes@.len(),
            size == page_len(v.take(i as int)),
            i > 0 ==> size <= page_size / 4,
            forall|j: int| 0 <= j < i ==> !is_bucket((#[trigger] n.inodes@[j])@),
        decreases n.inodes@.len() - i,
    {
        proof {
            assert(v.take(i + 1).drop_last() =~= v.take(i as int));
            assert(v[i as int] == n.inodes@[i as int]@);
            let one = v.subrange(i as int, i + 1);
            assert(few_fit(one, page_size as int));
            assert(one.drop_last() =~= Seq::<InodeV>::empty());
            assert(data_len(one.drop_last()) == 0);
            assert(one.last() == v[i as int]);
            crate::balance::lemma_data_take(v, i + 1);
        }
        let inode = &n.inodes[i];
        size = size + (16 + inode.key.len() + inode.value.len());
        if inode.flags & BUCKET_LEAF_FLAG != 0 {
            return false;
        }
        if size > page_size / 4 {
            return false;
        }
        i = i + 1;
    }
    assert(v.take(n.inodes@.len() as int) =~= v);
    true
}

/// The value of a bucket that is kept inside the one around it.
pub fn write_inline(header: InBucket, inodes: &[Inode]) -> (value: Vec<u8>)
    requires
        page_len(views(inodes@)) <= u32::MAX,
        inodes@.len() < 0xFFFF,
        forall|i: int| 0 <= i < inodes@.len() ==> (#[trigger] inodes@[i]).pgid == 0 && inodes@[i].key@.len() > 0,
    ensures
        value@.len() == 16 + page_len(views(inodes@)),
        in_bucket_at(value@, 0) == header,
        decode(inline_page(value@)) == views(inodes@),
        crate::inode::decodable(inline_page(value@)),
        crate::page::header_of(inline_page(value@)).flags == crate::page::LEAF_PAGE_FLAG,
        crate::page::header_of(inline_page(value@)).overflow == 0,
{
    let n: usize = inodes_size(true, inodes);
    let mut page: Vec<u8> = vec![0u8; n];
    let ghost b0 = page@;
    proof {
        lemma_zero_header(b0);
    }
    write_inodes(&mut page, true, inodes);
    proof {
        assert forall|i: int| 0 <= i < views(inodes@).len() implies (#[trigger] views(inodes@)[i]).pgid == 0 by {
            assert(inodes@[i].pgid == 0);
        }
        lemma_storable(views(inodes@));
        lemma_written_decodes(b0, page@, true, views(inodes@));
    }
    bucket_value(header, page)
}

// ---------------------------------------------------------------------------------------------
// Sealing.

/// The element of a nested bucket.
pub open spec fn bucket_item(key: Key, value: Seq<u8>) -> InodeV {
    InodeV { flags: BUCKET_LEAF_FLAG, pgid: 0, key, value }
}

/// A bucket that held `t` is now the value of a nested bucket: it holds the same, no page is lost
/// and none is used twice.
pub open spec fn sealed(
    t: Tree,
    sequence: u64,
    w0: Writer,
    w1: Writer,
    list0: FreelistV,
    list1: FreelistV,
    key: Key,
    value: Seq<u8>,
) -> bool {
    let v = bucket_item(key, value);
    &&& value.len() <= w0.page_size
    &&& w1.base@.item_ok(v)
    &&& entry(v, w1.base@.sub(v)) == (key, Item::Bucket { sequence, items: contents(t) })
    &&& forall|p: Pgid| #[trigger]
        item_refs(w1.base@, v, p) + spare(list1, w1.hwm, p) == claim(w0.base@, t, Set::empty(), p) + spare(
            list0,
            w0.hwm,
            p,
        )
}

/// A new root page holds the bucket that was spilled to it, with all that is nested in it.
pub proof fn lemma_spilled_root(
    t: Tree,
    w0: Writer,
    w1: Writer,
    list0: FreelistV,
    list1: FreelistV,
    id: Pgid,
)
    requires
        w0.base@.ok(),
        w1.base@.ok(),
        t.wf(None, None, false),
        t.subs() == w0.base@.subs(t.items()),
        crate::contents::items_ok(w0.base@, t.items()),
        crate::writer::extends(w0.base@, w1.base@),
        root_of_spilled(t, w0, w1, list0, list1, id),
    ensures
        contents(w1.base@.forest[id]) == contents(t),
        forall|p: Pgid| #[trigger]
            w1.base@.forest[id].refs(p) + spare(list1, w1.hwm, p) == claim(w0.base@, t, Set::empty(), p) + spare(
                list0,
                w0.hwm,
                p,
            ),
{
    let u = w1.base@.forest[id];
    let items = t.items();
    assert(w1.base@.page_ok(id));
    lemma_page_subs(w1.base@, u);
    lemma_paired(u, None, None, true, 2);
    lemma_paired(t, None, None, false, 2);
    lemma_contents(u);
    lemma_contents(t);
    lemma_nested_grows(w0.base@, w1.base@, items, Set::empty(), 0);
    assert forall|p: Pgid| #[trigger]
        u.refs(p) + spare(list1, w1.hwm, p) == claim(w0.base@, t, Set::empty(), p) + spare(list0, w0.hwm, p) by {
        lemma_refs_split(u, p);
        lemma_nested_all(w1.base@, items, p);
        lemma_nested_grows(w0.base@, w1.base@, items, Set::empty(), p);
        assert(u.uses(p) + spare(list1, w1.hwm, p) == t.uses(p) + spare(list0, w0.hwm, p));
    }
}

/// The value of a bucket that was spilled holds what the bucket held.
proof fn lemma_sealed_pages(
    t: Tree,
    w0: Writer,
    w1: Writer,
    list0: FreelistV,
    list1: FreelistV,
    header: InBucket,
    key: Key,
    value: Seq<u8>,
)
    requires
        w0.base@.ok(),
        w1.ok(list1),
        w0.page_size >= 1024,
        t.wf(None, None, false),
        t.subs() == w0.base@.subs(t.items()),
        crate::contents::items_ok(w0.base@, t.items()),
        crate::writer::extends(w0.base@, w1.base@),
        root_of_spilled(t, w0, w1, list0, list1, header.root),
        value.len() == 16,
        in_bucket_at(value, 0) == header,
    ensures
        sealed(t, header.sequence, w0, w1, list0, list1, key, value),
{
    let v = bucket_item(key, value);
    let b1 = w1.base@;
    assert(BUCKET_LEAF_FLAG & BUCKET_LEAF_FLAG != 0) by (bit_vector);
    assert(is_bucket(v));
    assert(root_of(v) == header.root);
    assert(sequence_of(v) == header.sequence);
    assert(b1.page_ok(header.root));
    lemma_spilled_root(t, w0, w1, list0, list1, header.root);
    assert(b1.sub(v) == Some(b1.forest[header.root]));
    assert forall|p: Pgid| #[trigger]
        item_refs(b1, v, p) + spare(list1, w1.hwm, p) == claim(w0.base@, t, Set::empty(), p) + spare(list0, w0.hwm, p) by {
        assert(b1.forest[header.root].refs(p) + spare(list1, w1.hwm, p) == claim(w0.base@, t, Set::empty(), p) + spare(
            list0,
            w0.hwm,
            p,
        ));
    }
}

/// The value of a bucket that is kept inside holds what the bucket held.
proof fn lemma_sealed_inline(
    n: Node,
    w: Writer,
    list0: FreelistV,
    list1: FreelistV,
    header: InBucket,
    key: Key,
    value: Seq<u8>,
)
    requires
        w.base@.ok(),
        n.ok(w.base@),
        n.tree(w.base@).wf(None, None, false),
        inline_fit(n, w.page_size as int),
        1024 <= w.page_size,
        forall|p: Pgid| #[trigger] spare(list1, w.hwm, p) == spare(list0, w.hwm, p) + n.tree(w.base@).own(p),
        header.root == 0,
        value.len() == 16 + page_len(views(n.inodes@)),
        in_bucket_at(value, 0) == header,
        decode(inline_page(value)) == views(n.inodes@),
        crate::inode::decodable(inline_page(value)),
        crate::page::header_of(inline_page(value)).flags == crate::page::LEAF_PAGE_FLAG,
    ensures
        sealed(n.tree(w.base@), header.sequence, w, w, list0, list1, key, value),
{
    let base = w.base@;
    let t = n.tree(base);
    let v = bucket_item(key, value);
    let page = inline_page(value);
    let items = views(n.inodes@);
    assert(BUCKET_LEAF_FLAG & BUCKET_LEAF_FLAG != 0) by (bit_vector);
    assert(is_bucket(v));
    assert(root_of(v) == 0);
    assert(sequence_of(v) == header.sequence);
    assert(base.sub(v) is None);
    assert forall|i: int| 0 <= i < items.len() implies !is_bucket(#[trigger] items[i]) by {
        assert(!is_bucket(n.inodes@[i]@));
    }
    assert(inline_ok(page)) by {
        reveal(Tree::wf_from);
        assert(inline_tree(page)->items == items);
    }
    lemma_paired(t, None, None, false, 2);
    lemma_contents(t);
    assert forall|i: int| 0 <= i < items.len() implies inline_contents(page)[i] == contents(t)[i] by {
        assert(!is_bucket(items[i]));
    }
    assert(inline_contents(page) =~= contents(t));
    assert forall|p: Pgid| #[trigger]
        item_refs(base, v, p) + spare(list1, w.hwm, p) == claim(base, t, Set::empty(), p) + spare(list0, w.hwm, p) by {
        lemma_nested_none(base, items, Set::empty(), p);
        assert(spare(list1, w.hwm, p) == spare(list0, w.hwm, p) + t.own(p));
    }
}

/// A bucket that was changed is kept inside the one around it just where that is possible, and has
/// pages of its own otherwise, which are filled as the bucket was told to.
#[verifier::opaque]
pub open spec fn filed(b: BucketInner, base: Base, v: InodeV) -> bool {
    match b.root_node {
        None => true,
        Some(n) => {
            &&& root_of(v) == 0 <==> inline_fit(*n, base.page_size)
            &&& root_of(v) != 0 ==> laid_root(base, *n, root_of(v), b.split_at as int)
        },
    }
}

/// What is written of a nested bucket: nothing where it was not changed, or is kept inside the one
/// around it.
pub open spec fn bucket_pieces(b: BucketInner, page_size: int) -> Seq<Seq<InodeV>> {
    match b.root_node {
        None => Seq::empty(),
        Some(n) => if inline_fit(*n, page_size) {
            Seq::empty()
        } else {
            root_pieces(*n, page_size, b.split_at as int)
        },
    }
}

/// What is written of the root bucket, which is always on pages of its own.
pub open spec fn top_pieces(b: BucketInner, page_size: int) -> Seq<Seq<InodeV>> {
    match b.root_node {
        None => Seq::empty(),
        Some(n) => root_pieces(*n, page_size, b.split_at as int),
    }
}

/// The bytes that the file has at most, once a bucket is written.
pub open spec fn seal_top(b: BucketInner, w: Writer) -> int {
    w.end() + root_cost(b.items(w.base@), w.page_size as int)
}

/// Writes a bucket that has no open buckets in it, and gives its value; nothing where it was not
/// changed.
pub fn seal(b: &mut BucketInner, w: &mut Writer, fl: &mut Freelist, Ghost(key): Ghost<Key>) -> (r: Result<
    Option<Vec<u8>>,
>)
    requires
        old(fl).inv(),
        old(w).ok(old(fl)@),
        old(b).ok(old(w).base@, false),
        old(b).flags() == 0,
        fits(old(b).items(old(w).base@), old(w).page_size as int),
        tidy(old(b).tree(old(w).base@), old(fl)@, old(w).hwm),
    ensures
        final(fl).inv(),
        went_on(*old(w), *final(w), old(fl)@, final(fl)@),
        match r {
            Ok(None) => {
                &&& old(b).root_node is None
                &&& *final(w) == *old(w)
                &&& final(fl)@ == old(fl)@
                &&& *final(b) == *old(b)
            },
            Ok(Some(value)) => {
                &&& old(b).root_node is Some
                &&& sealed(
                    old(b).tree(old(w).base@),
                    old(b).header.sequence,
                    *old(w),
                    *final(w),
                    old(fl)@,
                    final(fl)@,
                    key,
                    value@,
                )
                &&& filed(*old(b), final(w).base@, bucket_item(key, value@))
                &&& final(w).end() <= seal_top(*old(b), *old(w))
            },
            Err(e) => {
                &&& e is MaxSizeReached
                &&& halted(*old(w), *final(w), final(fl)@, bucket_pieces(*old(b), old(w).page_size as int))
                &&& stuck(*final(w), final(fl)@, seal_top(*old(b), *old(w)))
            },
        },
        r is Ok ==> grew_by(*old(w), *final(w), final(fl)@, bucket_pieces(*old(b), old(w).page_size as int)),
{
    let ghost w0 = *w;
    let ghost list0 = fl@;
    let ghost base = w.base@;
    let ghost t = b.tree(base);
    proof {
        lemma_since_same(list0, w0.txid);
        b.lemma_items(base, false);
        lemma_grew_none(w0.hwm as int, w0.page_size as int, list0);
    }
    let n: Node = match b.root_node.take() {
        None => {
            assert(b.root_node == old(b).root_node);
            return Ok(None);
        },
        Some(n) => *n,
    };
    let sequence: u64 = b.header.sequence;
    proof {
        n.lemma_shape(base);
        lemma_wide_cost(t.items(), w0.page_size as int);
    }
    if inlineable(&n, w.page_size) {
        proof {
            assert forall|p: Pgid| n.pgid <= p <= n.pgid + n.overflow && n.pgid != 0 implies listed(list0, p) == 0 by {
                assert(t.uses(p) + spare(list0, w0.hwm, p) <= 1);
            }
        }
        if n.pgid != 0 {
            free_page(fl, w.txid, n.pgid, n.overflow, Ghost(base));
            proof {
                lemma_freed(w0, list0, fl@, n.pgid, n.overflow);
            }
        }
        let header = InBucket { root: 0, sequence };
        proof {
            assert forall|i: int| 0 <= i < n.inodes@.len() implies (#[trigger] n.inodes@[i]).pgid == 0
                && n.inodes@[i].key@.len() > 0 by {
                assert(views(n.inodes@)[i] == n.inodes@[i]@);
                assert(t.items()[i] == n.inodes@[i]@);
                assert(key_ok(t.items()[i].key, None, None));
            }
            if n.inodes@.len() == 0 {
                assert(data_len(views(n.inodes@)) == 0);
            }
            assert forall|p: Pgid| #[trigger] spare(fl@, w.hwm, p) == spare(list0, w0.hwm, p) + t.own(p) by {
            }
        }
        let value: Vec<u8> = write_inline(header, n.inodes.as_slice());
        proof {
            lemma_grew_none(w0.hwm as int, w0.page_size as int, fl@);
            lemma_sealed_inline(n, w0, list0, fl@, header, key, value@);
            assert(root_of(bucket_item(key, value@)) == 0);
            reveal(filed);
        }
        return Ok(Some(value));
    }
    match spill_root(n, w, fl, b.split_at) {
        Err(e) => Err(e),
        Ok(id) => {
            let header = InBucket { root: id, sequence };
            let value: Vec<u8> = bucket_value(header, Vec::new());
            proof {
                lemma_sealed_pages(t, w0, *w, list0, fl@, header, key, value@);
                assert(root_of(bucket_item(key, value@)) == id);
                reveal(filed);
                assert(w.base@.page_ok(id));
            }
            Ok(Some(value))
        },
    }
}

/// A bucket is kept inside the one around it if and only if it is one leaf, none of its elements is
/// a bucket, and four pages with its elements fit into one, unless it has none.
pub proof fn lemma_inline_terms(n: Node, page_size: int)
    ensures
        inline_fit(n, page_size) <==> n.is_leaf && (n.inodes@.len() == 0 || 4 * page_len(views(n.inodes@)) <= page_size)
            && forall|i: int| 0 <= i < n.inodes@.len() ==> (#[trigger] n.inodes@[i]).flags % 2 == 0,
{
    assert forall|i: int| 0 <= i < n.inodes@.len() implies is_bucket((#[trigger] n.inodes@[i])@) == (n.inodes@[i].flags % 2
        == 1) by {
        lemma_odd_flags(n.inodes@[i]@);
    }
    if forall|i: int| 0 <= i < n.inodes@.len() ==> (#[trigger] n.inodes@[i]).flags % 2 == 0 {
        assert forall|i: int| 0 <= i < n.inodes@.len() implies !is_bucket((#[trigger] n.inodes@[i])@) by {
        }
    }
    if forall|i: int| 0 <= i < n.inodes@.len() ==> !is_bucket((#[trigger] n.inodes@[i])@) {
        assert forall|i: int| 0 <= i < n.inodes@.len() implies (#[trigger] n.inodes@[i]).flags % 2 == 0 by {
            assert(!is_bucket(n.inodes@[i]@));
        }
    }
}

/// A bucket that was changed is an inline one after the commit just if it fits: it is one leaf, none of
/// its elements is a bucket, and it has none or four pages with its elements fit into one.
pub proof fn lemma_filed(b: BucketInner, base: Base, v: InodeV)
    requires
        filed(b, base, v),
        b.root_node is Some,
    ensures
        ({
            let n = *b.root_node->0;
            root_of(v) == 0 <==> n.is_leaf && (n.inodes@.len() == 0 || 4 * page_len(views(n.inodes@)) <= base.page_size)
                && forall|i: int| 0 <= i < n.inodes@.len() ==> (#[trigger] n.inodes@[i]).flags % 2 == 0
        }),
{
    reveal(filed);
    lemma_inline_terms(*b.root_node->0, base.page_size);
}

} // verus!
