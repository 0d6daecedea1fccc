//! Searching pages and nodes for a key.
use vstd::prelude::*;
use crate::inode::{branch_at, branch_pgid, decodable, decode, elem_ok, leaf_at, Inode};
use crate::node::{Base, Node, Pages};
use crate::order::{group_order, key_equal, key_less, lemma_total, less};
use crate::page::{header_of, BRANCH_PAGE_FLAG, LEAF_PAGE_FLAG, PageHeader, Pgid};
use crate::tree::{at_key, cat, in_order, keys_in_order, kid_hi, kid_lo, lemma_pos, lemma_pos_within, lemma_route, lemma_wf_branch, lemma_wf_items, lemma_wf_one, pos, routes, Key, Tree};
use crate::writer::keys_of;

verus! {

/// The place of `key` on a leaf page: behind all elements with a smaller key.
pub fn page_place(page: &[u8], key: &[u8]) -> (r: usize)
    requires
        decodable(page@),
        header_of(page@).flags == LEAF_PAGE_FLAG,
        in_order(decode(page@)),
    ensures
        r == pos(decode(page@), key@),
        r <= decode(page@).len(),
{
    let count: usize = PageHeader::read(page).count as usize;
    let ghost v = decode(page@);
    let mut lo: usize = 0;
    let mut hi: usize = count;
    while lo < hi
        invariant
            decodable(page@),
            header_of(page@).flags == LEAF_PAGE_FLAG,
            v == decode(page@),
            in_order(v),
            lo <= hi <= v.len(),
            forall|j: int| 0 <= j < lo ==> less((#[trigger] v[j]).key, key@),
            forall|j: int| hi <= j < v.len() ==> !less((#[trigger] v[j]).key, key@),
        decreases hi - lo,
    {
        broadcast use group_order;

        let mid: usize = lo + (hi - lo) / 2;
        assert(elem_ok(page@, mid as int));
        let (_, k, _) = leaf_at(page, mid);
        assert(k@ == v[mid as int].key);
        if key_less(k, key) {
            assert forall|j: int| 0 <= j < mid + 1 implies less((#[trigger] v[j]).key, key@) by {
                if j < mid {
                    assert(less(v[j].key, v[mid as int].key));
                }
            }
            lo = mid + 1;
        } else {
            assert forall|j: int| mid <= j < v.len() implies !less((#[trigger] v[j]).key, key@) by {
                if j > mid {
                    assert(less(v[mid as int].key, v[j].key));
                }
            }
            hi = mid;
        }
    }
    proof {
        lemma_pos(v, key@);
        let q = pos(v, key@);
        if q < lo {
            assert(less(v[q].key, key@));
        } else if lo < q {
            assert(less(v[lo as int].key, key@));
        }
    }
    lo
}

/// The child of a branch page that `key` belongs to.
pub fn page_route(page: &[u8], key: &[u8]) -> (r: usize)
    requires
        decodable(page@),
        header_of(page@).flags == BRANCH_PAGE_FLAG,
        keys_in_order(keys_of(decode(page@))),
        decode(page@).len() > 0,
    ensures
        routes(keys_of(decode(page@)), key@, r as int),
        r < decode(page@).len(),
{
    let count: usize = PageHeader::read(page).count as usize;
    let ghost keys = keys_of(decode(page@));
    let mut exact: bool = false;
    let mut lo: usize = 0;
    let mut hi: usize = count;
    while lo < hi && !exact
        invariant
            decodable(page@),
            header_of(page@).flags == BRANCH_PAGE_FLAG,
            keys == keys_of(decode(page@)),
            keys_in_order(keys),
            lo <= hi <= keys.len(),
            count == keys.len(),
            exact ==> lo < keys.len() && keys[lo as int] == key@,
            forall|j: int| 0 <= j < lo ==> less(#[trigger] keys[j], key@),
            !exact ==> forall|j: int| hi <= j < keys.len() ==> less(key@, #[trigger] keys[j]),
        decreases hi - lo, (if exact { 0int } else { 1int }),
    {
        broadcast use group_order;

        let mid: usize = lo + (hi - lo) / 2;
        assert(elem_ok(page@, mid as int));
        let (_, k) = branch_at(page, mid);
        assert(k@ == keys[mid as int]);
        proof {
            lemma_total(k@, key@);
            assert forall|j: int| 0 <= j < mid implies less(#[trigger] keys[j], keys[mid as int]) by {
            }
            assert forall|j: int| mid < j < keys.len() implies less(keys[mid as int], #[trigger] keys[j]) by {
            }
        }
        if key_less(k, key) {
            lo = mid + 1;
        } else if key_equal(k, key) {
            exact = true;
            lo = mid;
        } else {
            hi = mid;
        }
    }
    let mut index: usize = lo;
    if !exact && index > 0 {
        index = index - 1;
    }
    proof {
        broadcast use group_order;

        if exact && index + 1 < keys.len() {
            assert(less(keys[index as int], keys[index + 1]));
        }
    }
    index
}

/// The element of a key, if the tree holds it, wherever it is.
pub open spec fn found(t: Tree, key: Key, r: Option<Inode>) -> bool {
    match r {
        Some(i) => at_key(t.items(), key) == Some(i@),
        None => at_key(t.items(), key) is None,
    }
}

/// What the child that a key belongs to says of the key, the branch says.
proof fn lemma_found_below(t: Tree, lo: Option<Key>, hi: Option<Key>, tight: bool, key: Key, i: int)
    requires
        t.wf(lo, hi, tight),
        t is Branch,
        routes(t->keys, key, i),
    ensures
        at_key(t.items(), key) == at_key(t->kids[i].items(), key),
        t->kids[i].wf(kid_lo(t->keys, i, lo), kid_hi(t->keys, i, hi), tight),
{
    lemma_wf_branch(t, lo, hi, tight, 2);
    lemma_wf_one(t, lo, hi, tight);
    lemma_route(t, lo, hi, tight, key, i);
    lemma_pos_within(cat(t->kids.take(i)), t->kids[i].items(), cat(t->kids.skip(i + 1)), key);
}

/// Looks for a key below a page.
pub fn find_page(
    pages: &Pages,
    pgid: Pgid,
    key: &[u8],
    Ghost(base): Ghost<Base>,
    Ghost(lo): Ghost<Option<Key>>,
    Ghost(hi): Ghost<Option<Key>>,
    Ghost(tight): Ghost<bool>,
) -> (r: Option<Inode>)
    requires
        base.ok(),
        pages.backs(base),
        base.old.contains(pgid),
        base.forest[pgid].wf(lo, hi, tight),
    ensures
        found(base.forest[pgid], key@, r),
    decreases base.forest[pgid],
{
    let ghost t = base.forest[pgid];
    assert(base.page_ok(pgid));
    let page: &[u8] = pages.page(pgid);
    let hdr = PageHeader::read(page);
    if hdr.is_leaf() {
        proof {
            lemma_wf_one(t, lo, hi, tight);
            lemma_wf_items(t, lo, hi, tight);
        }
        return find_in_page(page, key);
    }
    proof {
        lemma_wf_branch(t, lo, hi, tight, 2);
        assert(keys_of(decode(page@)) =~= t->keys);
    }
    let i: usize = page_route(page, key);
    assert(elem_ok(page@, i as int));
    let child: Pgid = branch_pgid(page, i);
    proof {
        lemma_found_below(t, lo, hi, tight, key@, i as int);
        assert(t->kids[i as int] == base.forest[decode(page@)[i as int].pgid]);
        assert(base.kids_old(pgid));
        assert(base.page_ok(decode(page@)[i as int].pgid));
        assert(base.old.contains(t->kids[i as int].pgid()));
    }
    find_page(
        pages,
        child,
        key,
        Ghost(base),
        Ghost(kid_lo(t->keys, i as int, lo)),
        Ghost(kid_hi(t->keys, i as int, hi)),
        Ghost(tight),
    )
}

/// Looks for a key on a leaf page.
pub fn find_in_page(page: &[u8], key: &[u8]) -> (r: Option<Inode>)
    requires
        decodable(page@),
        header_of(page@).flags == LEAF_PAGE_FLAG,
        in_order(decode(page@)),
    ensures
        match r {
            Some(i) => at_key(decode(page@), key@) == Some(i@),
            None => at_key(decode(page@), key@) is None,
        },
{
    let i: usize = page_place(page, key);
    let count: usize = PageHeader::read(page).count as usize;
    if i >= count {
        return None;
    }
    assert(elem_ok(page@, i as int));
    let (flags, k, v) = leaf_at(page, i);
    if !key_equal(k, key) {
        return None;
    }
    let inode = Inode {
        flags,
        pgid: 0,
        key: vstd::slice::slice_to_vec(k),
        value: vstd::slice::slice_to_vec(v),
    };
    assert(inode@ =~= decode(page@)[i as int]);
    Some(inode)
}

/// Looks for a key below a node.
pub fn find_node(
    pages: &Pages,
    node: &Node,
    key: &[u8],
    Ghost(base): Ghost<Base>,
    Ghost(lo): Ghost<Option<Key>>,
    Ghost(hi): Ghost<Option<Key>>,
    Ghost(tight): Ghost<bool>,
) -> (r: Option<Inode>)
    requires
        base.ok(),
        pages.backs(base),
        node.ok(base),
        node.tree(base).wf(lo, hi, tight),
    ensures
        found(node.tree(base), key@, r),
    decreases node.tree(base),
{
    let ghost t = node.tree(base);
    if node.is_leaf {
        proof {
            lemma_wf_one(t, lo, hi, tight);
            lemma_wf_items(t, lo, hi, tight);
        }
        let i: usize = node.place(key);
        if i >= node.inodes.len() {
            return None;
        }
        if !key_equal(node.inodes[i].key.as_slice(), key) {
            return None;
        }
        return Some(node.inodes[i].clone());
    }
    proof {
        lemma_wf_branch(t, lo, hi, tight, 2);
    }
    let i: usize = node.route(key, Ghost(base));
    proof {
        lemma_found_below(t, lo, hi, tight, key@, i as int);
        node.lemma_child(base, i as int);
    }
    match &node.children[i] {
        Some(c) => find_node(
            pages,
            c,
            key,
            Ghost(base),
            Ghost(kid_lo(t->keys, i as int, lo)),
            Ghost(kid_hi(t->keys, i as int, hi)),
            Ghost(tight),
        ),
        None => find_page(
            pages,
            node.inodes[i].pgid,
            key,
            Ghost(base),
            Ghost(kid_lo(t->keys, i as int, lo)),
            Ghost(kid_hi(t->keys, i as int, hi)),
            Ghost(tight),
        ),
    }
}

} // verus!
