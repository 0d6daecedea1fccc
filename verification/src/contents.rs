//! What a database holds, without regard to pages: keys with values, and keys with buckets.
use vstd::prelude::*;
use crate::inode::{decode, InodeV};
use crate::node::{inline_page, Base, Node};
use crate::page::Pgid;
use crate::tree::{cat, cat_subs, has_key, in_order, is_bucket, lemma_pos, pos, sequence_of, subs_ref, with_item, without_key, Key, Tree};
use crate::writer::extends;

verus! {

/// What a key of a bucket stands for.
pub enum Item {
    Value { bytes: Seq<u8> },
    Bucket { sequence: u64, items: Seq<(Key, Item)> },
}

/// What the page of an inline bucket holds.
pub open spec fn inline_contents(page: Seq<u8>) -> Seq<(Key, Item)> {
    Seq::new(
        decode(page).len(),
        |i: int| (decode(page)[i].key, Item::Value { bytes: decode(page)[i].value }),
    )
}

/// What a leaf element stands for, where `sub` is the root of the bucket that it may hold.
pub open spec fn entry(item: InodeV, sub: Option<Tree>) -> (Key, Item)
    decreases sub,
{
    if is_bucket(item) {
        let items = match sub {
            Some(t) => contents(t),
            None => inline_contents(inline_page(item.value)),
        };
        (item.key, Item::Bucket { sequence: sequence_of(item), items })
    } else {
        (item.key, Item::Value { bytes: item.value })
    }
}

/// What a tree holds.
pub open spec fn contents(t: Tree) -> Seq<(Key, Item)>
    decreases t,
{
    match t {
        Tree::Leaf { items, subs, .. } => {
            Seq::new(
                items.len(),
                |i: int|
                    if 0 <= i < subs.len() {
                        entry(items[i], subs[i])
                    } else {
                        arbitrary()
                    },
            )
        },
        Tree::Branch { kids, .. } => cat_contents(kids),
    }
}

/// What a list of children holds.
pub open spec fn cat_contents(kids: Seq<Tree>) -> Seq<(Key, Item)>
    decreases kids,
{
    if kids.len() == 0 {
        Seq::empty()
    } else {
        cat_contents(kids.drop_last()) + contents(kids.last())
    }
}

/// What leaf elements stand for.
pub open spec fn entries(items: Seq<InodeV>, subs: Seq<Option<Tree>>) -> Seq<(Key, Item)> {
    Seq::new(items.len(), |i: int| entry(items[i], subs[i]))
}

/// A tree in which every leaf has as many bucket roots as elements.
pub open spec fn paired(t: Tree) -> bool
    decreases t,
{
    match t {
        Tree::Leaf { items, subs, .. } => subs.len() == items.len(),
        Tree::Branch { kids, .. } => forall|i: int| 0 <= i < kids.len() ==> paired(#[trigger] kids[i]),
    }
}

/// A well-formed tree is such.
pub proof fn lemma_paired(t: Tree, lo: Option<Key>, hi: Option<Key>, tight: bool, least: int)
    requires
        t.wf_from(lo, hi, tight, least),
    ensures
        paired(t),
    decreases t,
{
    reveal(Tree::wf_from);
    match t {
        Tree::Leaf { .. } => {},
        Tree::Branch { keys, kids, .. } => {
            assert forall|i: int| 0 <= i < kids.len() implies paired(#[trigger] kids[i]) by {
                lemma_paired(kids[i], crate::tree::kid_lo(keys, i, lo), crate::tree::kid_hi(keys, i, hi), tight, 2);
            }
        },
    }
}

/// What a tree holds is what its leaf elements stand for.
pub proof fn lemma_contents(t: Tree)
    requires
        paired(t),
    ensures
        contents(t) == entries(t.items(), t.subs()),
        t.subs().len() == t.items().len(),
    decreases t,
{
    match t {
        Tree::Leaf { items, subs, .. } => {
            assert(contents(t) =~= entries(items, subs));
        },
        Tree::Branch { kids, .. } => {
            lemma_cat_contents(kids);
        },
    }
}

proof fn lemma_cat_contents(kids: Seq<Tree>)
    requires
        forall|i: int| 0 <= i < kids.len() ==> paired(#[trigger] kids[i]),
    ensures
        cat_contents(kids) == entries(cat(kids), cat_subs(kids)),
        cat_subs(kids).len() == cat(kids).len(),
    decreases kids,
{
    if kids.len() == 0 {
        assert(cat_contents(kids) =~= entries(cat(kids), cat_subs(kids)));
    } else {
        let rest = kids.drop_last();
        assert forall|i: int| 0 <= i < rest.len() implies paired(#[trigger] rest[i]) by {
            assert(rest[i] == kids[i]);
        }
        assert(paired(kids[kids.len() - 1]));
        lemma_cat_contents(rest);
        lemma_contents(kids.last());
        assert(cat_contents(kids) =~= entries(cat(kids), cat_subs(kids)));
    }
}

// ---------------------------------------------------------------------------------------------
// Which bucket roots hang below the elements of a tree on pages or in nodes.

/// The bucket roots below a tree on pages are those that the elements name.
pub proof fn lemma_page_subs(base: Base, t: Tree)
    requires
        base.ok(),
        base.forest.contains_key(t.pgid()),
        base.forest[t.pgid()] == t,
    ensures
        t.subs() == base.subs(t.items()),
        items_ok(base, t.items()),
    decreases t,
{
    assert(base.page_ok(t.pgid()));
    match t {
        Tree::Leaf { .. } => {},
        Tree::Branch { kids, .. } => {
            assert forall|i: int| 0 <= i < kids.len() implies (#[trigger] kids[i]).subs() == base.subs(kids[i].items())
                && items_ok(base, kids[i].items()) by {
                let p = decode(base.store[t.pgid()])[i].pgid;
                assert(kids[i] == base.forest[p]);
                assert(base.page_ok(p));
                lemma_page_subs(base, kids[i]);
            }
            lemma_kids_subs(base, kids);
        },
    }
}

/// All elements are fine.
pub open spec fn items_ok(base: Base, items: Seq<InodeV>) -> bool {
    forall|i: int| 0 <= i < items.len() ==> base.item_ok(#[trigger] items[i])
}

proof fn lemma_kids_subs(base: Base, kids: Seq<Tree>)
    requires
        forall|i: int|
            0 <= i < kids.len() ==> (#[trigger] kids[i]).subs() == base.subs(kids[i].items()) && items_ok(
                base,
                kids[i].items(),
            ),
    ensures
        cat_subs(kids) == base.subs(cat(kids)),
        items_ok(base, cat(kids)),
    decreases kids.len(),
{
    if kids.len() == 0 {
        assert(cat_subs(kids) =~= base.subs(cat(kids)));
    } else {
        let rest = kids.drop_last();
        assert forall|i: int| 0 <= i < rest.len() implies (#[trigger] rest[i]).subs() == base.subs(rest[i].items())
            && items_ok(base, rest[i].items()) by {
            assert(rest[i] == kids[i]);
        }
        lemma_kids_subs(base, rest);
        assert(kids[kids.len() - 1].subs() == base.subs(kids[kids.len() - 1].items()));
        assert(cat_subs(kids) =~= base.subs(cat(kids)));
        let a = cat(rest);
        let b = kids.last().items();
        assert forall|i: int| 0 <= i < cat(kids).len() implies base.item_ok(#[trigger] cat(kids)[i]) by {
            if i < a.len() {
                assert(cat(kids)[i] == a[i]);
            } else {
                assert(cat(kids)[i] == b[i - a.len()]);
            }
        }
    }
}

/// The bucket roots below a node are those that the elements name.
pub proof fn lemma_node_subs(base: Base, n: Node)
    requires
        base.ok(),
        n.ok(base),
    ensures
        n.tree(base).subs() == base.subs(n.tree(base).items()),
        items_ok(base, n.tree(base).items()),
    decreases n,
{
    if n.is_leaf {
        reveal(Node::ok);
        assert forall|i: int| 0 <= i < n.tree(base).items().len() implies base.item_ok(
            #[trigger] n.tree(base).items()[i],
        ) by {
            assert(base.item_ok(n.inodes@[i]@));
        }
    } else {
        let kids = n.kids(base);
        assert forall|i: int| 0 <= i < kids.len() implies (#[trigger] kids[i]).subs() == base.subs(kids[i].items())
            && items_ok(base, kids[i].items()) by {
            n.lemma_child(base, i);
            match n.children@[i] {
                Some(c) => {
                    lemma_node_subs(base, *c);
                },
                None => {
                    assert(base.page_ok(n.inodes@[i].pgid));
                    lemma_page_subs(base, kids[i]);
                },
            }
        }
        lemma_kids_subs(base, kids);
    }
}

// ---------------------------------------------------------------------------------------------
// How often pages are used by nested buckets.

/// How often the bucket that an element may hold uses page `p`.
pub open spec fn item_refs(base: Base, item: InodeV, p: Pgid) -> nat {
    match base.sub(item) {
        Some(t) => t.refs(p),
        None => 0,
    }
}

/// How often the buckets held by elements use page `p`, but for those with keys in `but`.
pub open spec fn nested(base: Base, items: Seq<InodeV>, but: Set<Key>, p: Pgid) -> nat
    decreases items.len(),
{
    if items.len() == 0 {
        0
    } else {
        nested(base, items.drop_last(), but, p) + (if but.contains(items.last().key) {
            0
        } else {
            item_refs(base, items.last(), p)
        })
    }
}

/// The same for two lists one after the other.
pub proof fn lemma_nested_add(base: Base, a: Seq<InodeV>, b: Seq<InodeV>, but: Set<Key>, p: Pgid)
    ensures
        nested(base, a + b, but, p) == nested(base, a, but, p) + nested(base, b, but, p),
    decreases b.len(),
{
    if b.len() == 0 {
        assert(a + b =~= a);
    } else {
        lemma_nested_add(base, a, b.drop_last(), but, p);
        assert((a + b).drop_last() =~= a + b.drop_last());
        assert((a + b).last() == b.last());
    }
}

/// What one element counts.
pub open spec fn one_nested(base: Base, item: InodeV, but: Set<Key>, p: Pgid) -> nat {
    if but.contains(item.key) {
        0
    } else {
        item_refs(base, item, p)
    }
}

proof fn lemma_nested_one(base: Base, item: InodeV, but: Set<Key>, p: Pgid)
    ensures
        nested(base, seq![item], but, p) == one_nested(base, item, but, p),
{
    assert(seq![item].drop_last() =~= Seq::<InodeV>::empty());
    assert(nested(base, seq![item].drop_last(), but, p) == 0);
    assert(seq![item].last() == item);
}

/// One element set apart.
pub proof fn lemma_nested_split(base: Base, s: Seq<InodeV>, i: int, but: Set<Key>, p: Pgid)
    requires
        0 <= i < s.len(),
    ensures
        nested(base, s, but, p) == nested(base, s.take(i), but, p) + one_nested(base, s[i], but, p) + nested(
            base,
            s.skip(i + 1),
            but,
            p,
        ),
{
    let a = s.take(i);
    let m = seq![s[i]];
    let b = s.skip(i + 1);
    assert(s =~= a + m + b);
    lemma_nested_add(base, a + m, b, but, p);
    lemma_nested_add(base, a, m, but, p);
    lemma_nested_one(base, s[i], but, p);
}

/// What an element put in its place changes.
pub proof fn lemma_nested_with(base: Base, s: Seq<InodeV>, item: InodeV, but: Set<Key>, p: Pgid)
    requires
        in_order(s),
    ensures
        nested(base, with_item(s, item), but, p) == nested(base, s, but, p) + one_nested(base, item, but, p) - (
        if has_key(s, item.key) {
            one_nested(base, s[pos(s, item.key)], but, p)
        } else {
            0
        }),
{
    lemma_pos(s, item.key);
    let q = pos(s, item.key);
    let t = with_item(s, item);
    lemma_nested_split(base, t, q, but, p);
    assert(t.take(q) =~= s.take(q));
    if has_key(s, item.key) {
        lemma_nested_split(base, s, q, but, p);
        assert(t.skip(q + 1) =~= s.skip(q + 1));
    } else {
        assert(t.skip(q + 1) =~= s.skip(q));
        assert(s =~= s.take(q) + s.skip(q));
        lemma_nested_add(base, s.take(q), s.skip(q), but, p);
    }
}

/// What an element taken out changes.
pub proof fn lemma_nested_without(base: Base, s: Seq<InodeV>, key: Key, but: Set<Key>, p: Pgid)
    requires
        in_order(s),
        has_key(s, key),
    ensures
        nested(base, without_key(s, key), but, p) + one_nested(base, s[pos(s, key)], but, p) == nested(
            base,
            s,
            but,
            p,
        ),
{
    lemma_pos(s, key);
    let q = pos(s, key);
    let t = without_key(s, key);
    lemma_nested_split(base, s, q, but, p);
    assert(t =~= s.take(q) + s.skip(q + 1));
    lemma_nested_add(base, s.take(q), s.skip(q + 1), but, p);
}

/// What one more exception changes.
pub proof fn lemma_nested_but(base: Base, s: Seq<InodeV>, key: Key, but: Set<Key>, p: Pgid)
    requires
        in_order(s),
        has_key(s, key),
        !but.contains(key),
    ensures
        nested(base, s, but.insert(key), p) + item_refs(base, s[pos(s, key)], p) == nested(base, s, but, p),
{
    lemma_pos(s, key);
    let q = pos(s, key);
    lemma_nested_split(base, s, q, but, p);
    lemma_nested_split(base, s, q, but.insert(key), p);
    lemma_nested_same(base, s.take(q), key, but, p);
    lemma_nested_same(base, s.skip(q + 1), key, but, p);
    assert forall|i: int| 0 <= i < s.take(q).len() implies (#[trigger] s.take(q)[i]).key != key by {
        crate::order::lemma_asymmetric(s[i].key, s[q].key);
    }
    assert forall|i: int| 0 <= i < s.skip(q + 1).len() implies (#[trigger] s.skip(q + 1)[i]).key != key by {
        crate::order::lemma_asymmetric(s[q].key, s[q + 1 + i].key);
    }
}

/// An exception for a key that no element has changes nothing.
pub proof fn lemma_nested_same(base: Base, s: Seq<InodeV>, key: Key, but: Set<Key>, p: Pgid)
    ensures
        (forall|i: int| 0 <= i < s.len() ==> (#[trigger] s[i]).key != key) ==> nested(base, s, but.insert(key), p)
            == nested(base, s, but, p),
    decreases s.len(),
{
    if s.len() > 0 {
        lemma_nested_same(base, s.drop_last(), key, but, p);
        if forall|i: int| 0 <= i < s.len() ==> (#[trigger] s[i]).key != key {
            assert forall|i: int| 0 <= i < s.len() - 1 implies (#[trigger] s.drop_last()[i]).key != key by {
                assert(s[i].key != key);
            }
            assert(s[s.len() - 1].key != key);
        }
    }
}

/// Without exceptions it is what the bucket roots use.
pub proof fn lemma_nested_all(base: Base, s: Seq<InodeV>, p: Pgid)
    ensures
        nested(base, s, Set::empty(), p) == subs_ref(base.subs(s), p),
    decreases s.len(),
{
    if s.len() > 0 {
        lemma_nested_all(base, s.drop_last(), p);
        assert(base.subs(s).drop_last() =~= base.subs(s.drop_last()));
        assert(base.subs(s).last() == base.sub(s.last()));
    } else {
        assert(base.subs(s) =~= Seq::<Option<Tree>>::empty());
    }
}

/// Where no element holds a bucket nothing is counted.
pub proof fn lemma_nested_none(base: Base, s: Seq<InodeV>, but: Set<Key>, p: Pgid)
    requires
        forall|i: int| 0 <= i < s.len() ==> !is_bucket(#[trigger] s[i]),
    ensures
        nested(base, s, but, p) == 0,
    decreases s.len(),
{
    if s.len() > 0 {
        assert forall|i: int| 0 <= i < s.len() - 1 implies !is_bucket(#[trigger] s.drop_last()[i]) by {
            assert(!is_bucket(s[i]));
        }
        lemma_nested_none(base, s.drop_last(), but, p);
        assert(!is_bucket(s[s.len() - 1]));
    }
}

/// More pages change nothing.
pub proof fn lemma_nested_grows(a: Base, b: Base, s: Seq<InodeV>, but: Set<Key>, p: Pgid)
    requires
        extends(a, b),
        items_ok(a, s),
    ensures
        nested(b, s, but, p) == nested(a, s, but, p),
        items_ok(b, s),
        b.subs(s) == a.subs(s),
    decreases s.len(),
{
    assert forall|i: int| 0 <= i < s.len() implies b.item_ok(#[trigger] s[i]) && b.sub(s[i]) == a.sub(s[i]) by {
        crate::writer::lemma_item_grows(a, b, s[i]);
    }
    assert(b.subs(s) =~= a.subs(s));
    if s.len() > 0 {
        assert forall|i: int| 0 <= i < s.len() - 1 implies a.item_ok(#[trigger] s.drop_last()[i]) by {
            assert(a.item_ok(s[i]));
        }
        lemma_nested_grows(a, b, s.drop_last(), but, p);
        assert(a.item_ok(s[s.len() - 1]));
        assert(b.sub(s[s.len() - 1]) == a.sub(s[s.len() - 1]));
    }
}

} // verus!
