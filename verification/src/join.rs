//! How trees stay well-formed when children are joined or dropped.
use vstd::prelude::*;
use crate::order::{group_order, less, less_eq};
use crate::page::Pgid;
use crate::tree::{cat, key_ok, keys_in_order, kid_hi, kid_lo, kids_use, lemma_cat_add, lemma_cat_one, lemma_cat_split, Key, Tree};

verus! {

/// Bound `a` is not above bound `b`, where none is the lowest.
pub open spec fn lo_le(a: Option<Key>, b: Option<Key>) -> bool {
    a is None || b is Some && less_eq(a->0, b->0)
}

/// Bound `a` is not above bound `b`, where none is the highest.
pub open spec fn hi_le(a: Option<Key>, b: Option<Key>) -> bool {
    b is None || a is Some && less_eq(a->0, b->0)
}

/// A tree that is well-formed between some bounds is so between wider ones.
pub proof fn lemma_widen(t: Tree, lo: Option<Key>, hi: Option<Key>, lo2: Option<Key>, hi2: Option<Key>, least: int)
    requires
        t.wf_from(lo, hi, false, least),
        lo_le(lo2, lo),
        hi_le(hi, hi2),
    ensures
        t.wf_from(lo2, hi2, false, least),
    decreases t,
{
    reveal(Tree::wf_from);
    broadcast use group_order;

    match t {
        Tree::Leaf { items, .. } => {
            assert forall|i: int| 0 <= i < items.len() implies key_ok(#[trigger] items[i].key, lo2, hi2) by {
                assert(key_ok(items[i].key, lo, hi));
            }
        },
        Tree::Branch { keys, kids, .. } => {
            assert forall|i: int| 0 <= i < keys.len() implies key_ok(#[trigger] keys[i], lo2, hi2) by {
                assert(key_ok(keys[i], lo, hi));
            }
            assert forall|i: int| 0 <= i < kids.len() implies (#[trigger] kids[i]).wf_from(
                kid_lo(keys, i, lo2),
                kid_hi(keys, i, hi2),
                false,
                2,
            ) by {
                assert(kids[i].wf_from(kid_lo(keys, i, lo), kid_hi(keys, i, hi), false, 2));
                lemma_widen(
                    kids[i],
                    kid_lo(keys, i, lo),
                    kid_hi(keys, i, hi),
                    kid_lo(keys, i, lo2),
                    kid_hi(keys, i, hi2),
                    2,
                );
            }
        },
    }
}

/// A tight tree is well-formed without regard to that.
pub proof fn lemma_loosen(t: Tree, lo: Option<Key>, hi: Option<Key>, least: int)
    requires
        t.wf_from(lo, hi, true, least),
    ensures
        t.wf_from(lo, hi, false, least),
    decreases t,
{
    reveal(Tree::wf_from);
    match t {
        Tree::Leaf { .. } => {},
        Tree::Branch { keys, kids, .. } => {
            assert forall|i: int| 0 <= i < kids.len() implies (#[trigger] kids[i]).wf_from(
                kid_lo(keys, i, lo),
                kid_hi(keys, i, hi),
                false,
                2,
            ) by {
                lemma_loosen(kids[i], kid_lo(keys, i, lo), kid_hi(keys, i, hi), 2);
            }
        },
    }
}

/// The root of `l` with all that the root of `r` has behind what it has.
pub open spec fn joined(l: Tree, r: Tree) -> Tree {
    match (l, r) {
        (Tree::Leaf { pgid, over, items: a, subs: c }, Tree::Leaf { items: b, subs: d, .. }) => {
            Tree::Leaf { pgid, over, items: a + b, subs: c + d }
        },
        (Tree::Branch { pgid, over, keys: a, kids: c }, Tree::Branch { keys: b, kids: d, .. }) => {
            Tree::Branch { pgid, over, keys: a + b, kids: c + d }
        },
        _ => l,
    }
}

/// Joining two neighbours gives a well-formed tree with what both hold, on all pages of both but
/// that of the second root.
pub proof fn lemma_joined(l: Tree, r: Tree, lo: Option<Key>, mid: Key, hi: Option<Key>)
    requires
        l.wf_from(lo, Some(mid), false, 1),
        r.wf_from(Some(mid), hi, false, 1),
        l.height() == r.height(),
        key_ok(mid, lo, hi),
    ensures
        joined(l, r).wf_from(lo, hi, false, 2),
        joined(l, r).height() == l.height(),
        joined(l, r).items() == l.items() + r.items(),
        joined(l, r).pgid() == l.pgid(),
        forall|p: Pgid| #[trigger] joined(l, r).uses(p) == l.uses(p) + r.uses(p) - r.own(p),
{
    reveal(Tree::wf_from);
    broadcast use group_order;

    let m = joined(l, r);
    match l {
        Tree::Leaf { items: a, .. } => {
            assert(r is Leaf);
            let b = r.items();
            let s = a + b;
            assert forall|i: int| 0 <= i < s.len() implies key_ok(#[trigger] s[i].key, lo, hi) && s[i].pgid == 0 by {
                if i < a.len() {
                    assert(s[i] == a[i]);
                    assert(key_ok(a[i].key, lo, Some(mid)));
                } else {
                    assert(s[i] == b[i - a.len()]);
                    assert(key_ok(b[i - a.len()].key, Some(mid), hi));
                }
            }
            assert forall|x: int, y: int| 0 <= x < y < s.len() implies less(#[trigger] s[x].key, #[trigger] s[y].key) by {
                if y < a.len() {
                    assert(s[x] == a[x] && s[y] == a[y]);
                } else if x >= a.len() {
                    assert(s[x] == b[x - a.len()] && s[y] == b[y - a.len()]);
                } else {
                    assert(s[x] == a[x] && s[y] == b[y - a.len()]);
                    assert(key_ok(a[x].key, lo, Some(mid)));
                    assert(key_ok(b[y - a.len()].key, Some(mid), hi));
                }
            }
        },
        Tree::Branch { keys: kl, kids: cl, .. } => {
            assert(r is Branch);
            let kr = r->keys;
            let cr = r->kids;
            let n = kl.len() as int;
            let keys = kl + kr;
            let kids = cl + cr;
            assert forall|i: int| 0 <= i < keys.len() implies key_ok(#[trigger] keys[i], lo, hi) by {
                if i < n {
                    assert(keys[i] == kl[i]);
                    assert(key_ok(kl[i], lo, Some(mid)));
                } else {
                    assert(keys[i] == kr[i - n]);
                    assert(key_ok(kr[i - n], Some(mid), hi));
                }
            }
            assert forall|x: int, y: int| 0 <= x < y < keys.len() implies less(#[trigger] keys[x], #[trigger] keys[y]) by {
                if y < n {
                    assert(keys[x] == kl[x] && keys[y] == kl[y]);
                } else if x >= n {
                    assert(keys[x] == kr[x - n] && keys[y] == kr[y - n]);
                } else {
                    assert(keys[x] == kl[x] && keys[y] == kr[y - n]);
                    assert(key_ok(kl[x], lo, Some(mid)));
                    assert(key_ok(kr[y - n], Some(mid), hi));
                }
            }
            assert forall|i: int| 0 <= i < kids.len() implies (#[trigger] kids[i]).wf_from(
                kid_lo(keys, i, lo),
                kid_hi(keys, i, hi),
                false,
                2,
            ) by {
                if i < n {
                    assert(kids[i] == cl[i]);
                    assert(cl[i].wf_from(kid_lo(kl, i, lo), kid_hi(kl, i, Some(mid)), false, 2));
                    assert(keys[i] == kl[i]);
                    if i + 1 < n {
                        assert(keys[i + 1] == kl[i + 1]);
                    } else {
                        assert(keys[n] == kr[0]);
                        assert(key_ok(kr[0], Some(mid), hi));
                    }
                    lemma_widen(
                        cl[i],
                        kid_lo(kl, i, lo),
                        kid_hi(kl, i, Some(mid)),
                        kid_lo(keys, i, lo),
                        kid_hi(keys, i, hi),
                        2,
                    );
                } else {
                    let j = i - n;
                    assert(kids[i] == cr[j]);
                    assert(cr[j].wf_from(kid_lo(kr, j, Some(mid)), kid_hi(kr, j, hi), false, 2));
                    assert(keys[i] == kr[j]);
                    if j + 1 < kr.len() {
                        assert(keys[i + 1] == kr[j + 1]);
                    }
                }
            }
            assert(kids[0] == cl[0]);
            assert forall|i: int| 0 <= i < kids.len() implies (#[trigger] kids[i]).height() == kids[0].height() by {
                if i < n {
                    assert(kids[i] == cl[i]);
                } else {
                    assert(kids[i] == cr[i - n]);
                    assert(cr[i - n].height() == cr[0].height());
                }
            }
            lemma_cat_add(cl, cr);
            assert forall|p: Pgid| #[trigger] m.uses(p) == l.uses(p) + r.uses(p) - r.own(p) by {
                assert(kids_use(cl + cr, p) == kids_use(cl, p) + kids_use(cr, p));
            }
        },
    }
}

/// A well-formed branch, but that child `c` may have only one child.
pub open spec fn wf_but(t: Tree, lo: Option<Key>, hi: Option<Key>, c: int) -> bool {
    &&& t is Branch
    &&& t->keys.len() == t->kids.len()
    &&& 0 <= c < t->kids.len()
    &&& keys_in_order(t->keys)
    &&& forall|i: int| 0 <= i < t->keys.len() ==> key_ok(#[trigger] t->keys[i], lo, hi)
    &&& forall|i: int|
        0 <= i < t->kids.len() ==> (#[trigger] t->kids[i]).wf_from(
            kid_lo(t->keys, i, lo),
            kid_hi(t->keys, i, hi),
            false,
            if i == c { 1 } else { 2 },
        )
    &&& forall|i: int| 0 <= i < t->kids.len() ==> (#[trigger] t->kids[i]).height() == t->kids[0].height()
}

/// The branch `t` without child `i`.
pub open spec fn without_kid(t: Tree, i: int) -> Tree {
    Tree::Branch { pgid: t.pgid(), over: t.over(), keys: t->keys.remove(i), kids: t->kids.remove(i) }
}

/// The branch `t` with child `i` joined to the one before it.
pub open spec fn with_joined(t: Tree, i: int) -> Tree {
    Tree::Branch {
        pgid: t.pgid(),
        over: t.over(),
        keys: t->keys.remove(i),
        kids: t->kids.update(i - 1, joined(t->kids[i - 1], t->kids[i])).remove(i),
    }
}

/// Dropping a child that holds nothing changes nothing but the pages in use.
pub proof fn lemma_without_kid(t: Tree, lo: Option<Key>, hi: Option<Key>, i: int)
    requires
        wf_but(t, lo, hi, i),
        t->kids.len() >= 2,
        t->kids[i].items().len() == 0,
    ensures
        without_kid(t, i).wf_from(lo, hi, false, 1),
        without_kid(t, i)->keys.len() == t->keys.len() - 1,
        without_kid(t, i).items() == t.items(),
        without_kid(t, i).height() == t.height(),
        forall|p: Pgid| #[trigger] without_kid(t, i).uses(p) == t.uses(p) - t->kids[i].uses(p),
{
    reveal(Tree::wf_from);
    broadcast use group_order;

    let u = without_kid(t, i);
    let keys = t->keys;
    let kids = t->kids;
    let uk = u->keys;
    let uc = u->kids;
    assert forall|j: int| 0 <= j < uk.len() implies uk[j] == keys[if j < i { j } else { j + 1 }] && uc[j] == kids[if j < i {
        j
    } else {
        j + 1
    }] by {
    }
    assert forall|j: int| 0 <= j < uk.len() implies key_ok(#[trigger] uk[j], lo, hi) by {
        assert(key_ok(keys[if j < i { j } else { j + 1 }], lo, hi));
    }
    assert forall|x: int, y: int| 0 <= x < y < uk.len() implies less(#[trigger] uk[x], #[trigger] uk[y]) by {
        let a = if x < i { x } else { x + 1 };
        let b = if y < i { y } else { y + 1 };
        assert(less(keys[a], keys[b]));
    }
    assert forall|j: int| 0 <= j < uc.len() implies (#[trigger] uc[j]).wf_from(
        kid_lo(uk, j, lo),
        kid_hi(uk, j, hi),
        false,
        2,
    ) by {
        let k = if j < i { j } else { j + 1 };
        assert(kids[k].wf_from(kid_lo(keys, k, lo), kid_hi(keys, k, hi), false, 2));
        assert(uk[j] == keys[k]);
        if j + 1 < uk.len() {
            assert(uk[j + 1] == keys[if j + 1 < i { j + 1 } else { j + 2 }]);
            if j + 1 == i {
                assert(less(keys[i], keys[i + 1]));
            }
        } else if j + 1 == i {
            assert(key_ok(keys[i], lo, hi));
        }
        lemma_widen(
            kids[k],
            kid_lo(keys, k, lo),
            kid_hi(keys, k, hi),
            kid_lo(uk, j, lo),
            kid_hi(uk, j, hi),
            2,
        );
    }
    assert forall|j: int| 0 <= j < uc.len() implies (#[trigger] uc[j]).height() == uc[0].height() by {
        let k = if j < i { j } else { j + 1 };
        assert(kids[k].height() == kids[0].height());
        assert(kids[1].height() == kids[0].height());
    }
    lemma_cat_split(kids, i);
    assert(uc =~= kids.take(i) + kids.skip(i + 1));
    lemma_cat_add(kids.take(i), kids.skip(i + 1));
    assert(cat(kids) =~= cat(uc));
    assert(kids[1].height() == kids[0].height());
    assert forall|p: Pgid| #[trigger] u.uses(p) == t.uses(p) - kids[i].uses(p) by {
        assert(kids_use(uc, p) == kids_use(kids.take(i), p) + kids_use(kids.skip(i + 1), p));
        assert(kids_use(kids, p) == kids_use(kids.take(i), p) + kids[i].uses(p) + kids_use(kids.skip(i + 1), p));
    }
}

/// Joining two children changes nothing but the pages in use.
pub proof fn lemma_with_joined(t: Tree, lo: Option<Key>, hi: Option<Key>, c: int, i: int)
    requires
        wf_but(t, lo, hi, c),
        1 <= i < t->kids.len(),
        c == i || c == i - 1,
    ensures
        with_joined(t, i).wf_from(lo, hi, false, 1),
        with_joined(t, i)->keys.len() == t->keys.len() - 1,
        with_joined(t, i).items() == t.items(),
        with_joined(t, i).height() == t.height(),
        forall|p: Pgid| #[trigger] with_joined(t, i).uses(p) == t.uses(p) - t->kids[i].own(p),
{
    reveal(Tree::wf_from);
    broadcast use group_order;

    let u = with_joined(t, i);
    let keys = t->keys;
    let kids = t->kids;
    let l = kids[i - 1];
    let r = kids[i];
    let m = joined(l, r);
    let uk = u->keys;
    let uc = u->kids;
    let llo = kid_lo(keys, i - 1, lo);
    let rhi = kid_hi(keys, i, hi);
    assert(l.wf_from(llo, Some(keys[i]), false, if i - 1 == c { 1 } else { 2 }));
    assert(r.wf_from(Some(keys[i]), rhi, false, if i == c { 1 } else { 2 }));
    lemma_fewer(l, llo, Some(keys[i]));
    lemma_fewer(r, Some(keys[i]), rhi);
    assert(l.height() == kids[0].height() && r.height() == kids[0].height());
    assert(key_ok(keys[i], llo, rhi)) by {
        assert(key_ok(keys[i], lo, hi));
        assert(less(keys[i - 1], keys[i]));
        if i + 1 < keys.len() {
            assert(less(keys[i], keys[i + 1]));
        }
    }
    lemma_joined(l, r, llo, keys[i], rhi);
    assert forall|j: int| 0 <= j < uk.len() implies uk[j] == keys[if j < i { j } else { j + 1 }] && uc[j] == (if j == i
        - 1 {
        m
    } else {
        kids[if j < i {
            j
        } else {
            j + 1
        }]
    }) by {
    }
    assert forall|j: int| 0 <= j < uk.len() implies key_ok(#[trigger] uk[j], lo, hi) by {
        assert(key_ok(keys[if j < i { j } else { j + 1 }], lo, hi));
    }
    assert forall|x: int, y: int| 0 <= x < y < uk.len() implies less(#[trigger] uk[x], #[trigger] uk[y]) by {
        let a = if x < i { x } else { x + 1 };
        let b = if y < i { y } else { y + 1 };
        assert(less(keys[a], keys[b]));
    }
    assert forall|j: int| 0 <= j < uc.len() implies (#[trigger] uc[j]).wf_from(
        kid_lo(uk, j, lo),
        kid_hi(uk, j, hi),
        false,
        2,
    ) by {
        let k = if j < i { j } else { j + 1 };
        assert(uk[j] == keys[k]);
        if j + 1 < uk.len() {
            assert(uk[j + 1] == keys[if j + 1 < i { j + 1 } else { j + 2 }]);
        }
        if j != i - 1 {
            assert(kids[k].wf_from(kid_lo(keys, k, lo), kid_hi(keys, k, hi), false, 2));
        }
    }
    assert forall|j: int| 0 <= j < uc.len() implies (#[trigger] uc[j]).height() == uc[0].height() by {
        let k = if j < i { j } else { j + 1 };
        assert(kids[k].height() == kids[0].height());
    }
    lemma_cat_split(kids, i);
    lemma_cat_split(kids.take(i), i - 1);
    assert(kids.take(i).take(i - 1) =~= kids.take(i - 1));
    assert(kids.take(i).skip(i) =~= Seq::<Tree>::empty());
    assert(kids.take(i)[i - 1] == l);
    let a = kids.take(i - 1);
    let b = kids.skip(i + 1);
    assert(uc =~= a + seq![m] + b);
    lemma_cat_add(a + seq![m], b);
    lemma_cat_add(a, seq![m]);
    lemma_cat_one(m);
    assert(cat(kids) =~= cat(uc));
    assert forall|p: Pgid| #[trigger] u.uses(p) == t.uses(p) - r.own(p) by {
        assert(kids_use(a + seq![m] + b, p) == kids_use(a + seq![m], p) + kids_use(b, p));
        assert(kids_use(a + seq![m], p) == kids_use(a, p) + kids_use(seq![m], p));
        assert(kids_use(seq![m], p) == m.uses(p));
        assert(m.uses(p) == l.uses(p) + r.uses(p) - r.own(p));
        assert(kids_use(kids, p) == kids_use(kids.take(i), p) + r.uses(p) + kids_use(b, p));
        assert(kids_use(kids.take(i), p) == kids_use(a, p) + l.uses(p) + kids_use(Seq::<Tree>::empty(), p));
    }
}

/// A root with at least two children has at least one.
pub proof fn lemma_fewer(t: Tree, lo: Option<Key>, hi: Option<Key>)
    requires
        t.wf_from(lo, hi, false, 1) || t.wf_from(lo, hi, false, 2),
    ensures
        t.wf_from(lo, hi, false, 1),
{
    reveal(Tree::wf_from);
}

} // verus!
