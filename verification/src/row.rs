//! Rows: neighbouring pages of one height, as the children of a branch or of a branch to be.
use vstd::prelude::*;
use crate::inode::InodeV;
use crate::join::hi_le;
use crate::node::Base;
use crate::order::{group_order, less, less_eq};
use crate::page::Pgid;
use crate::tree::{in_order, key_ok, keys_in_order, kid_hi, kid_lo, Key, Tree};

verus! {

/// The trees are well-formed, of the same height, and each begins with its key and ends before
/// the key of the next one.
pub open spec fn row_wf(keys: Seq<Key>, kids: Seq<Tree>, lo: Option<Key>, hi: Option<Key>, h: nat) -> bool {
    &&& keys.len() == kids.len()
    &&& keys.len() >= 1
    &&& keys_in_order(keys)
    &&& forall|i: int| 0 <= i < keys.len() ==> key_ok(#[trigger] keys[i], lo, hi)
    &&& forall|i: int| 0 <= i < kids.len() ==> (#[trigger] kids[i]).wf(Some(keys[i]), kid_hi(keys, i, hi), true)
    &&& forall|i: int| 0 <= i < kids.len() ==> (#[trigger] kids[i]).height() == h && kids[i].first_key() == Some(keys[i])
}

/// A tight tree that ends before some key ends before a later one.
pub proof fn lemma_raise(t: Tree, lo: Option<Key>, hi: Option<Key>, hi2: Option<Key>, least: int)
    requires
        t.wf_from(lo, hi, true, least),
        hi_le(hi, hi2),
    ensures
        t.wf_from(lo, hi2, true, least),
    decreases t,
{
    broadcast use group_order;

    reveal(Tree::wf_from);
    match t {
        Tree::Leaf { items, .. } => {
            assert forall|i: int| 0 <= i < items.len() implies key_ok(#[trigger] items[i].key, lo, hi2) by {
                assert(key_ok(items[i].key, lo, hi));
            }
        },
        Tree::Branch { keys, kids, .. } => {
            assert forall|i: int| 0 <= i < keys.len() implies key_ok(#[trigger] keys[i], lo, hi2) by {
                assert(key_ok(keys[i], lo, hi));
            }
            assert forall|i: int| 0 <= i < kids.len() implies (#[trigger] kids[i]).wf_from(
                kid_lo(keys, i, lo),
                kid_hi(keys, i, hi2),
                true,
                2,
            ) by {
                assert(kids[i].wf_from(kid_lo(keys, i, lo), kid_hi(keys, i, hi), true, 2));
                lemma_raise(kids[i], kid_lo(keys, i, lo), kid_hi(keys, i, hi), kid_hi(keys, i, hi2), 2);
            }
        },
    }
}

/// A tight tree is so without a lower bound.
pub proof fn lemma_untie(t: Tree, lo: Option<Key>, hi: Option<Key>, least: int)
    requires
        t.wf_from(lo, hi, true, least),
    ensures
        t.wf_from(None, hi, true, least),
    decreases t,
{
    reveal(Tree::wf_from);
    match t {
        Tree::Leaf { items, .. } => {
            assert forall|i: int| 0 <= i < items.len() implies key_ok(#[trigger] items[i].key, None, hi) by {
                assert(key_ok(items[i].key, lo, hi));
            }
        },
        Tree::Branch { keys, kids, .. } => {
            assert forall|i: int| 0 <= i < keys.len() implies key_ok(#[trigger] keys[i], None, hi) by {
                assert(key_ok(keys[i], lo, hi));
            }
            assert forall|i: int| 0 <= i < kids.len() implies (#[trigger] kids[i]).wf_from(
                kid_lo(keys, i, None),
                kid_hi(keys, i, hi),
                true,
                2,
            ) by {
                assert(kids[i].wf_from(kid_lo(keys, i, lo), kid_hi(keys, i, hi), true, 2));
                if i == 0 {
                    lemma_untie(kids[i], kid_lo(keys, i, lo), kid_hi(keys, i, hi), 2);
                }
            }
        },
    }
}

/// A tree on pages of the database that is well-formed is tight from its first key on.
pub proof fn lemma_tighten(base: Base, t: Tree, lo: Option<Key>, hi: Option<Key>, k: Key)
    requires
        base.ok(),
        base.forest.contains_key(t.pgid()),
        base.forest[t.pgid()] == t,
        t.wf(lo, hi, false),
        t.first_key() == Some(k),
    ensures
        t.wf(Some(k), hi, true),
        key_ok(k, lo, hi),
    decreases t,
{
    broadcast use group_order;

    reveal(Tree::wf_from);
    assert(base.page_ok(t.pgid()));
    match t {
        Tree::Leaf { items, .. } => {
            assert(key_ok(items[0].key, lo, hi));
            assert forall|i: int| 0 <= i < items.len() implies key_ok(#[trigger] items[i].key, Some(k), hi) by {
                assert(key_ok(items[i].key, lo, hi));
                if i > 0 {
                    assert(less(items[0].key, items[i].key));
                }
            }
        },
        Tree::Branch { keys, kids, .. } => {
            assert(key_ok(keys[0], lo, hi));
            assert forall|i: int| 0 <= i < keys.len() implies key_ok(#[trigger] keys[i], Some(k), hi) by {
                assert(key_ok(keys[i], lo, hi));
                if i > 0 {
                    assert(less(keys[0], keys[i]));
                }
            }
            assert forall|i: int| 0 <= i < kids.len() implies (#[trigger] kids[i]).wf_from(
                kid_lo(keys, i, Some(k)),
                kid_hi(keys, i, hi),
                true,
                2,
            ) by {
                assert(kids[i].wf_from(kid_lo(keys, i, lo), kid_hi(keys, i, hi), false, 2));
                let p = crate::inode::decode(base.store[t.pgid()])[i].pgid;
                assert(kids[i] == base.forest[p] && kids[i].first_key() == Some(keys[i]));
                assert(base.page_ok(p));
                lemma_tighten(base, kids[i], kid_lo(keys, i, lo), kid_hi(keys, i, hi), keys[i]);
            }
        },
    }
}

/// The two parts of a row are rows.
pub proof fn lemma_row_split(keys: Seq<Key>, kids: Seq<Tree>, lo: Option<Key>, hi: Option<Key>, h: nat, n: int)
    requires
        row_wf(keys, kids, lo, hi, h),
        0 < n < keys.len(),
    ensures
        row_wf(keys.take(n), kids.take(n), lo, Some(keys[n]), h),
        row_wf(keys.skip(n), kids.skip(n), Some(keys[n]), hi, h),
{
    broadcast use group_order;

    let a = keys.take(n);
    let x = kids.take(n);
    let b = keys.skip(n);
    let y = kids.skip(n);
    assert forall|i: int| 0 <= i < a.len() implies key_ok(#[trigger] a[i], lo, Some(keys[n])) by {
        assert(key_ok(keys[i], lo, hi));
        assert(less(keys[i], keys[n]));
    }
    assert forall|i: int| 0 <= i < x.len() implies (#[trigger] x[i]).wf(Some(a[i]), kid_hi(a, i, Some(keys[n])), true) by {
        assert(kids[i].wf(Some(keys[i]), kid_hi(keys, i, hi), true));
    }
    assert forall|i: int| 0 <= i < x.len() implies (#[trigger] x[i]).height() == h && x[i].first_key() == Some(a[i]) by {
        assert(kids[i].height() == h);
    }
    assert forall|i: int| 0 <= i < b.len() implies key_ok(#[trigger] b[i], Some(keys[n]), hi) by {
        assert(key_ok(keys[n + i], lo, hi));
        if i > 0 {
            assert(less(keys[n], keys[n + i]));
        }
    }
    assert forall|i: int| 0 <= i < y.len() implies (#[trigger] y[i]).wf(Some(b[i]), kid_hi(b, i, hi), true) by {
        assert(kids[n + i].wf(Some(keys[n + i]), kid_hi(keys, n + i, hi), true));
    }
    assert forall|i: int| 0 <= i < y.len() implies (#[trigger] y[i]).height() == h && y[i].first_key() == Some(b[i]) by {
        assert(kids[n + i].height() == h);
    }
}

/// Two rows one after the other are a row.
pub proof fn lemma_row_add(
    a: Seq<Key>,
    x: Seq<Tree>,
    b: Seq<Key>,
    y: Seq<Tree>,
    lo: Option<Key>,
    mid: Key,
    hi: Option<Key>,
    h: nat,
)
    requires
        row_wf(a, x, lo, Some(mid), h),
        row_wf(b, y, Some(mid), hi, h),
        lo is Some ==> less_eq(lo->0, mid),
        hi is Some ==> less(mid, hi->0),
    ensures
        row_wf(a + b, x + y, lo, hi, h),
{
    broadcast use group_order;

    let keys = a + b;
    let kids = x + y;
    let n = a.len() as int;
    assert forall|i: int| 0 <= i < keys.len() implies key_ok(#[trigger] keys[i], lo, hi) by {
        if i < n {
            assert(keys[i] == a[i]);
            assert(key_ok(a[i], lo, Some(mid)));
        } else {
            assert(keys[i] == b[i - n]);
            assert(key_ok(b[i - n], Some(mid), hi));
        }
    }
    assert forall|i: int, j: int| 0 <= i < j < keys.len() implies less(#[trigger] keys[i], #[trigger] keys[j]) by {
        if j < n {
            assert(keys[i] == a[i] && keys[j] == a[j]);
        } else if i >= n {
            assert(keys[i] == b[i - n] && keys[j] == b[j - n]);
        } else {
            assert(keys[i] == a[i] && keys[j] == b[j - n]);
            assert(key_ok(a[i], lo, Some(mid)));
            assert(key_ok(b[j - n], Some(mid), hi));
        }
    }
    assert forall|i: int| 0 <= i < kids.len() implies (#[trigger] kids[i]).wf(Some(keys[i]), kid_hi(keys, i, hi), true)
        && kids[i].height() == h && kids[i].first_key() == Some(keys[i]) by {
        if i < n {
            assert(kids[i] == x[i] && keys[i] == a[i]);
            assert(x[i].wf(Some(a[i]), kid_hi(a, i, Some(mid)), true));
            if i + 1 < n {
                assert(keys[i + 1] == a[i + 1]);
            } else {
                assert(keys[n] == b[0]);
                assert(key_ok(b[0], Some(mid), hi));
            }
            lemma_raise(x[i], Some(a[i]), kid_hi(a, i, Some(mid)), kid_hi(keys, i, hi), 2);
            assert(x[i].height() == h);
        } else {
            let j = i - n;
            assert(kids[i] == y[j] && keys[i] == b[j]);
            assert(y[j].wf(Some(b[j]), kid_hi(b, j, hi), true));
            if j + 1 < b.len() {
                assert(keys[i + 1] == b[j + 1]);
            }
            assert(y[j].height() == h);
        }
    }
}

/// One tree is a row.
pub proof fn lemma_row_one(key: Key, kid: Tree, lo: Option<Key>, hi: Option<Key>)
    requires
        kid.wf(Some(key), hi, true),
        kid.first_key() == Some(key),
        key_ok(key, lo, hi),
    ensures
        row_wf(seq![key], seq![kid], lo, hi, kid.height()),
{
}

/// A branch over a row of at least two is well-formed.
pub proof fn lemma_row_branch(keys: Seq<Key>, kids: Seq<Tree>, lo: Option<Key>, hi: Option<Key>, h: nat, pgid: Pgid, over: u32)
    requires
        row_wf(keys, kids, lo, hi, h),
        keys.len() >= 2,
    ensures
        ({
            let t = Tree::Branch { pgid, over, keys, kids };
            &&& t.wf(Some(keys[0]), hi, true)
            &&& t.height() == h + 1
            &&& t.first_key() == Some(keys[0])
        }),
{
    broadcast use group_order;

    reveal(Tree::wf_from);
    let t = Tree::Branch { pgid, over, keys, kids };
    assert forall|i: int| 0 <= i < keys.len() implies key_ok(#[trigger] keys[i], Some(keys[0]), hi) by {
        assert(key_ok(keys[i], lo, hi));
        if i > 0 {
            assert(less(keys[0], keys[i]));
        }
    }
    assert forall|i: int| 0 <= i < kids.len() implies (#[trigger] kids[i]).wf_from(
        kid_lo(keys, i, Some(keys[0])),
        kid_hi(keys, i, hi),
        true,
        2,
    ) by {
        assert(kids[i].wf(Some(keys[i]), kid_hi(keys, i, hi), true));
    }
    assert(kids[0].height() == h);
    assert forall|i: int| 0 <= i < kids.len() implies (#[trigger] kids[i]).height() == kids[0].height() by {
        assert(kids[i].height() == h);
    }
}

/// A leaf with part of a sorted list is well-formed.
pub proof fn lemma_row_leaf(items: Seq<InodeV>, subs: Seq<Option<Tree>>, lo: Option<Key>, hi: Option<Key>, pgid: Pgid, over: u32)
    requires
        in_order(items),
        items.len() > 0,
        subs.len() == items.len(),
        forall|i: int| 0 <= i < items.len() ==> key_ok(#[trigger] items[i].key, lo, hi),
        forall|i: int| 0 <= i < items.len() ==> (#[trigger] items[i]).pgid == 0,
    ensures
        ({
            let t = Tree::Leaf { pgid, over, items, subs };
            &&& t.wf(Some(items[0].key), hi, true)
            &&& t.height() == 0
            &&& t.first_key() == Some(items[0].key)
            &&& key_ok(items[0].key, lo, hi)
        }),
{
    broadcast use group_order;

    reveal(Tree::wf_from);
    assert forall|i: int| 0 <= i < items.len() implies key_ok(#[trigger] items[i].key, Some(items[0].key), hi) by {
        if i > 0 {
            assert(less(items[0].key, items[i].key));
        }
    }
}

} // verus!
