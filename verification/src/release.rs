//! Freeing the pages of buckets that are deleted.
use vstd::prelude::*;
use crate::bucket::{names, BucketId};
use crate::contents::{items_ok, lemma_nested_add, lemma_nested_all, lemma_page_subs, nested, one_nested};
use crate::freelist::{Freelist, FreelistV};
use crate::inode::{branch_pgid, decode, elem_ok, read_inodes, views, Inode, InodeV};
use crate::ledger::{free_page, ledger, lemma_since, lemma_since_same, listed, since};
use crate::node::{Base, Node, Pages};
use crate::order::key_equal;
use crate::page::{BUCKET_LEAF_FLAG, InBucket, PageHeader, Pgid, Txid};
use crate::tree::{cat, kids_use, lemma_cat_split, lemma_refs_split, root_of, Key, Tree};

verus! {

/// How often a bucket uses page `p`, with the buckets nested in it but for those with keys in
/// `but`.
pub open spec fn claim(base: Base, t: Tree, but: Set<Key>, p: Pgid) -> nat {
    t.uses(p) + nested(base, t.items(), but, p)
}

/// Without exceptions it is what the tree and everything nested in it use.
pub proof fn lemma_claim_all(base: Base, t: Tree, p: Pgid)
    requires
        base.ok(),
        base.forest.contains_key(t.pgid()),
        base.forest[t.pgid()] == t,
    ensures
        claim(base, t, Set::empty(), p) == t.refs(p),
{
    lemma_page_subs(base, t);
    lemma_refs_split(t, p);
    lemma_nested_all(base, t.items(), p);
}

/// What the freelist must be like for pages to be freed.
pub open spec fn can_free(base: Base, list: FreelistV, txid: Txid) -> bool {
    &&& base.ok()
    &&& forall|p: Pgid| #[trigger] base.forest.contains_key(p) ==> base.old.contains(p)
    &&& ledger(list, base, txid)
}

/// The first children of a list, with what is nested in them.
spec fn claims(base: Base, kids: Seq<Tree>, but: Set<Key>, p: Pgid) -> nat {
    kids_use(kids, p) + nested(base, cat(kids), but, p)
}

proof fn lemma_claims_next(base: Base, kids: Seq<Tree>, i: int, but: Set<Key>, p: Pgid)
    requires
        0 <= i < kids.len(),
    ensures
        claims(base, kids.take(i + 1), but, p) == claims(base, kids.take(i), but, p) + claim(base, kids[i], but, p),
        claims(base, kids.take(i + 1), but, p) <= claims(base, kids, but, p),
{
    let a = kids.take(i);
    let b = kids.take(i + 1);
    assert(b.drop_last() =~= a);
    assert(b.last() == kids[i]);
    lemma_nested_add(base, cat(a), kids[i].items(), but, p);
    lemma_cat_split(kids, i);
    lemma_nested_add(base, cat(a) + kids[i].items(), cat(kids.skip(i + 1)), but, p);
    assert(kids_use(kids, p) == kids_use(kids.take(i), p) + kids[i].uses(p) + kids_use(kids.skip(i + 1), p));
    assert(cat(b) =~= cat(a) + kids[i].items());
}

/// Whether a name is in a list.
fn named(subs: &[(Vec<u8>, BucketId)], name: &[u8]) -> (r: bool)
    ensures
        r == names(subs@).contains(name@),
{
    let mut i: usize = 0;
    while i < subs.len()
        invariant
            i <= subs@.len(),
            forall|j: int| 0 <= j < i ==> (#[trigger] subs@[j]).0@ != name@,
        decreases subs@.len() - i,
    {
        if key_equal(subs[i].0.as_slice(), name) {
            return true;
        }
        i = i + 1;
    }
    false
}

/// Frees a page, all that is below it, and the buckets nested in that, but for those named.
pub fn free_below(
    pages: &Pages,
    fl: &mut Freelist,
    txid: Txid,
    pgid: Pgid,
    but: &[(Vec<u8>, BucketId)],
    Ghost(base): Ghost<Base>,
)
    requires
        can_free(base, old(fl)@, txid),
        pages.backs(base),
        base.old.contains(pgid),
        old(fl).inv(),
        forall|p: Pgid| #[trigger] claim(base, base.forest[pgid], names(but@), p) + listed(old(fl)@, p) <= 1,
    ensures
        final(fl).inv(),
        can_free(base, final(fl)@, txid),
        since(old(fl)@, final(fl)@, txid),
        final(fl)@.free == old(fl)@.free,
        forall|p: Pgid| #[trigger]
            listed(final(fl)@, p) == listed(old(fl)@, p) + claim(base, base.forest[pgid], names(but@), p),
    decreases base.forest[pgid], 1int,
{
    let ghost t = base.forest[pgid];
    let ghost list0 = fl@;
    let ghost b = names(but@);
    assert(base.page_ok(pgid));
    let page: &[u8] = pages.page(pgid);
    let hdr = PageHeader::read(page);
    proof {
        assert forall|p: Pgid| pgid <= p <= pgid + hdr.overflow implies listed(list0, p) == 0 by {
            assert(claim(base, t, b, p) + listed(list0, p) <= 1);
            assert(t.own(p) == 1);
        }
    }
    free_page(fl, txid, pgid, hdr.overflow, Ghost(base));
    let ghost list1 = fl@;
    proof {
        assert forall|p: Pgid| #[trigger] listed(list1, p) == listed(list0, p) + t.own(p) by {
        }
    }
    if hdr.is_leaf() {
        let inodes: Vec<Inode> = read_inodes(page);
        proof {
            assert forall|p: Pgid| #[trigger] nested(base, t.items(), b, p) + listed(list1, p) <= 1 by {
                assert(claim(base, t, b, p) + listed(list0, p) <= 1);
                assert(listed(list1, p) == listed(list0, p) + t.own(p));
            }
        }
        free_items(pages, fl, txid, inodes.as_slice(), but, Ghost(base), Ghost(t));
        proof {
            lemma_since(list0, list1, fl@, txid);
            assert forall|p: Pgid| #[trigger] listed(fl@, p) == listed(list0, p) + claim(base, t, b, p) by {
                assert(listed(list1, p) == listed(list0, p) + t.own(p));
            }
        }
        return;
    }
    let ghost kids = t->kids;
    let mut i: usize = 0;
    let n: usize = hdr.count as usize;
    proof {
        assert(kids.take(0) =~= Seq::<Tree>::empty());
        assert forall|p: Pgid| #[trigger] listed(fl@, p) == listed(list0, p) + t.own(p) + claims(base, kids.take(0), b, p) by {
            assert(listed(list1, p) == listed(list0, p) + t.own(p));
        }
    }
    while i < n
        invariant
            can_free(base, fl@, txid),
            pages.backs(base),
            base.old.contains(pgid),
            base.page_ok(pgid),
            page@ == base.store[pgid],
            t == base.forest[pgid],
            t is Branch,
            kids == t->kids,
            n == kids.len(),
            n == decode(page@).len(),
            b == names(but@),
            list0 == old(fl)@,
            fl.inv(),
            since(list0, fl@, txid),
            fl@.free == list0.free,
            i <= n,
            forall|p: Pgid| #[trigger] claim(base, t, b, p) + listed(list0, p) <= 1,
            forall|p: Pgid| #[trigger]
                listed(fl@, p) == listed(list0, p) + t.own(p) + claims(base, kids.take(i as int), b, p),
        decreases n - i,
    {
        assert(elem_ok(page@, i as int));
        let child: Pgid = branch_pgid(page, i);
        let ghost list2 = fl@;
        let ghost kid = kids[i as int];
        proof {
            assert(kid == base.forest[decode(page@)[i as int].pgid]);
            assert(base.kids_old(pgid));
            assert(base.page_ok(decode(page@)[i as int].pgid));
            assert(base.old.contains(kid.pgid()));
            assert forall|p: Pgid| #[trigger] claim(base, kid, b, p) + listed(list2, p) <= 1 by {
                lemma_claims_next(base, kids, i as int, b, p);
                assert(claim(base, t, b, p) + listed(list0, p) <= 1);
            }
        }
        free_below(pages, fl, txid, child, but, Ghost(base));
        proof {
            lemma_since(list0, list2, fl@, txid);
            assert forall|p: Pgid| #[trigger]
                listed(fl@, p) == listed(list0, p) + t.own(p) + claims(base, kids.take(i + 1), b, p) by {
                lemma_claims_next(base, kids, i as int, b, p);
                assert(listed(list2, p) == listed(list0, p) + t.own(p) + claims(base, kids.take(i as int), b, p));
            }
        }
        i = i + 1;
    }
    proof {
        assert(kids.take(n as int) =~= kids);
    }
}

/// Frees the buckets that elements of a leaf hold, but for those named.
fn free_items(
    pages: &Pages,
    fl: &mut Freelist,
    txid: Txid,
    inodes: &[Inode],
    but: &[(Vec<u8>, BucketId)],
    Ghost(base): Ghost<Base>,
    Ghost(t): Ghost<Tree>,
)
    requires
        can_free(base, old(fl)@, txid),
        pages.backs(base),
        old(fl).inv(),
        t is Leaf,
        t->items == views(inodes@),
        t->subs == base.subs(views(inodes@)),
        items_ok(base, views(inodes@)),
        forall|p: Pgid| #[trigger] nested(base, t.items(), names(but@), p) + listed(old(fl)@, p) <= 1,
    ensures
        final(fl).inv(),
        can_free(base, final(fl)@, txid),
        since(old(fl)@, final(fl)@, txid),
        final(fl)@.free == old(fl)@.free,
        forall|p: Pgid| #[trigger]
            listed(final(fl)@, p) == listed(old(fl)@, p) + nested(base, t.items(), names(but@), p),
    decreases t, 0int,
{
    let ghost list0 = fl@;
    let ghost b = names(but@);
    let ghost items = views(inodes@);
    let ghost t0 = t;
    proof {
        lemma_since_same(list0, txid);
        assert(items.take(0) =~= Seq::<InodeV>::empty());
        assert(t.items() == items);
    }
    let mut i: usize = 0;
    while i < inodes.len()
        invariant
            can_free(base, fl@, txid),
            pages.backs(base),
            fl.inv(),
            t0 == t,
            t is Leaf,
            items == views(inodes@),
            t->items == items,
            t->subs == base.subs(items),
            items_ok(base, items),
            b == names(but@),
            list0 == old(fl)@,
            since(list0, fl@, txid),
            fl@.free == list0.free,
            i <= inodes@.len(),
            forall|p: Pgid| #[trigger] nested(base, items, b, p) + listed(list0, p) <= 1,
            forall|p: Pgid| #[trigger] listed(fl@, p) == listed(list0, p) + nested(base, items.take(i as int), b, p),
        decreases inodes@.len() - i,
    {
        let ghost list1 = fl@;
        let ghost item = items[i as int];
        let inode = &inodes[i];
        proof {
            assert(item == inodes@[i as int]@);
            assert(base.item_ok(item));
            assert forall|p: Pgid| #[trigger]
                nested(base, items.take(i + 1), b, p) == nested(base, items.take(i as int), b, p) + one_nested(
                    base,
                    item,
                    b,
                    p,
                ) && nested(base, items.take(i + 1), b, p) <= nested(base, items, b, p) by {
                let a = items.take(i + 1);
                assert(a.drop_last() =~= items.take(i as int));
                assert(a.last() == item);
                assert(items =~= a + items.skip(i + 1));
                lemma_nested_add(base, a, items.skip(i + 1), b, p);
            }
        }
        if inode.flags & BUCKET_LEAF_FLAG != 0 && !named(but, inode.key.as_slice()) {
            let header = InBucket::read(inode.value.as_slice());
            assert(header.root == root_of(item));
            if header.root != 0 {
                let none: Vec<(Vec<u8>, BucketId)> = Vec::new();
                proof {
                    let u = base.forest[header.root];
                    assert(base.page_ok(header.root));
                    assert(names(none@) =~= Set::<Key>::empty());
                    assert forall|p: Pgid| #[trigger] claim(base, u, names(none@), p) + listed(list1, p) <= 1 by {
                        lemma_claim_all(base, u, p);
                        assert(nested(base, items, b, p) + listed(list0, p) <= 1);
                        assert(nested(base, items.take(i + 1), b, p) <= nested(base, items, b, p));
                    }
                    assert(t->subs[i as int] == Some(u));
                    assert(decreases_to!(t => t->subs));
                    assert(decreases_to!(t->subs => t->subs[i as int]));
                    assert(decreases_to!(t->subs[i as int] => t->subs[i as int]->0));
                }
                free_below(pages, fl, txid, header.root, none.as_slice(), Ghost(base));
                proof {
                    let u = base.forest[header.root];
                    lemma_since(list0, list1, fl@, txid);
                    assert forall|p: Pgid| #[trigger]
                        listed(fl@, p) == listed(list1, p) + one_nested(base, item, b, p) by {
                        lemma_claim_all(base, u, p);
                    }
                }
            }
        }
        proof {
            assert forall|p: Pgid| #[trigger]
                listed(fl@, p) == listed(list0, p) + nested(base, items.take(i + 1), b, p) by {
                assert(listed(fl@, p) == listed(list1, p) + one_nested(base, item, b, p));
                assert(listed(list1, p) == listed(list0, p) + nested(base, items.take(i as int), b, p));
            }
        }
        i = i + 1;
    }
    proof {
        assert(items.take(inodes@.len() as int) =~= items);
    }
}

/// Frees the page of a node, all that is below it, and the buckets nested in that, but for those
/// named.
pub fn free_node(
    pages: &Pages,
    fl: &mut Freelist,
    txid: Txid,
    node: &Node,
    but: &[(Vec<u8>, BucketId)],
    Ghost(base): Ghost<Base>,
)
    requires
        can_free(base, old(fl)@, txid),
        pages.backs(base),
        node.ok(base),
        old(fl).inv(),
        forall|p: Pgid| #[trigger] claim(base, node.tree(base), names(but@), p) + listed(old(fl)@, p) <= 1,
    ensures
        final(fl).inv(),
        can_free(base, final(fl)@, txid),
        since(old(fl)@, final(fl)@, txid),
        final(fl)@.free == old(fl)@.free,
        forall|p: Pgid| #[trigger]
            listed(final(fl)@, p) == listed(old(fl)@, p) + claim(base, node.tree(base), names(but@), p),
    decreases node,
{
    let ghost t = node.tree(base);
    let ghost list0 = fl@;
    let ghost b = names(but@);
    proof {
        node.lemma_shape(base);
        lemma_since_same(list0, txid);
    }
    if node.pgid != 0 {
        proof {
            assert(base.page_ok(node.pgid));
            assert forall|p: Pgid| node.pgid <= p <= node.pgid + node.overflow implies listed(list0, p) == 0 by {
                assert(claim(base, t, b, p) + listed(list0, p) <= 1);
                assert(t.own(p) == 1);
            }
        }
        free_page(fl, txid, node.pgid, node.overflow, Ghost(base));
    }
    let ghost list1 = fl@;
    proof {
        assert forall|p: Pgid| #[trigger] listed(list1, p) == listed(list0, p) + t.own(p) by {
        }
    }
    if node.is_leaf {
        proof {
            crate::contents::lemma_node_subs(base, *node);
            assert forall|p: Pgid| #[trigger] nested(base, t.items(), b, p) + listed(list1, p) <= 1 by {
                assert(claim(base, t, b, p) + listed(list0, p) <= 1);
                assert(listed(list1, p) == listed(list0, p) + t.own(p));
            }
        }
        free_items(pages, fl, txid, node.inodes.as_slice(), but, Ghost(base), Ghost(t));
        proof {
            lemma_since(list0, list1, fl@, txid);
            assert forall|p: Pgid| #[trigger] listed(fl@, p) == listed(list0, p) + claim(base, t, b, p) by {
                assert(listed(list1, p) == listed(list0, p) + t.own(p));
            }
        }
        return;
    }
    let ghost kids = t->kids;
    let mut i: usize = 0;
    let n: usize = node.inodes.len();
    proof {
        assert(kids.take(0) =~= Seq::<Tree>::empty());
        assert forall|p: Pgid| #[trigger] listed(fl@, p) == listed(list0, p) + t.own(p) + claims(base, kids.take(0), b, p) by {
            assert(listed(list1, p) == listed(list0, p) + t.own(p));
        }
    }
    while i < n
        invariant
            can_free(base, fl@, txid),
            pages.backs(base),
            node.ok(base),
            !node.is_leaf,
            t == node.tree(base),
            kids == t->kids,
            n == node.inodes@.len(),
            n == kids.len(),
            b == names(but@),
            list0 == old(fl)@,
            fl.inv(),
            since(list0, fl@, txid),
            fl@.free == list0.free,
            i <= n,
            forall|p: Pgid| #[trigger] claim(base, t, b, p) + listed(list0, p) <= 1,
            forall|p: Pgid| #[trigger]
                listed(fl@, p) == listed(list0, p) + t.own(p) + claims(base, kids.take(i as int), b, p),
        decreases n - i,
    {
        let ghost list2 = fl@;
        let ghost kid = kids[i as int];
        proof {
            node.lemma_child(base, i as int);
            assert forall|p: Pgid| #[trigger] claim(base, kid, b, p) + listed(list2, p) <= 1 by {
                lemma_claims_next(base, kids, i as int, b, p);
                assert(claim(base, t, b, p) + listed(list0, p) <= 1);
            }
        }
        match &node.children[i] {
            Some(c) => {
                free_node(pages, fl, txid, c, but, Ghost(base));
            },
            None => {
                free_below(pages, fl, txid, node.inodes[i].pgid, but, Ghost(base));
            },
        }
        proof {
            lemma_since(list0, list2, fl@, txid);
            assert forall|p: Pgid| #[trigger]
                listed(fl@, p) == listed(list0, p) + t.own(p) + claims(base, kids.take(i + 1), b, p) by {
                lemma_claims_next(base, kids, i as int, b, p);
                assert(listed(list2, p) == listed(list0, p) + t.own(p) + claims(base, kids.take(i as int), b, p));
            }
        }
        i = i + 1;
    }
    proof {
        assert(kids.take(n as int) =~= kids);
    }
}

} // verus!
