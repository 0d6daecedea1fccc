//! The pages that can be reached from a root page.
use vstd::prelude::*;
use crate::inode::decode;
use crate::node::Base;
use crate::page::Pgid;
use crate::tree::{is_bucket, kids_ref, lemma_cat_split, root_of, subs_ref, Tree};

verus! {

/// Page `q` is the page of `t`, or of something below it or nested in it.
pub open spec fn holds(t: Tree, q: Pgid) -> bool
    decreases t,
{
    t.pgid() == q || match t {
        Tree::Leaf { subs, .. } => exists|i: int| 0 <= i < subs.len() && sub_holds(#[trigger] subs[i], q),
        Tree::Branch { kids, .. } => exists|i: int| 0 <= i < kids.len() && holds(#[trigger] kids[i], q),
    }
}

/// The same of a nested bucket.
pub open spec fn sub_holds(sub: Option<Tree>, q: Pgid) -> bool
    decreases sub,
{
    match sub {
        Some(t) => holds(t, q),
        None => false,
    }
}

/// All pages that belong to `t`.
pub open spec fn page_set(t: Tree) -> Set<Pgid> {
    Set::new(|q: Pgid| holds(t, q))
}

/// What can be reached is known, and what can be reached from there can be reached.
pub proof fn lemma_holds(base: Base, t: Tree, q: Pgid)
    requires
        base.ok(),
        base.forest.contains_key(t.pgid()),
        base.forest[t.pgid()] == t,
        holds(t, q),
    ensures
        base.forest.contains_key(q),
        base.forest[q].pgid() == q,
        forall|x: Pgid| #[trigger] holds(base.forest[q], x) ==> holds(t, x),
    decreases t,
{
    assert(base.page_ok(t.pgid()));
    if q != t.pgid() {
        match t {
            Tree::Leaf { items, subs, .. } => {
                let i = choose|i: int| 0 <= i < subs.len() && sub_holds(#[trigger] subs[i], q);
                assert(sub_holds(subs[i], q));
                let u = subs[i]->0;
                assert(subs[i] == base.sub(items[i]));
                assert(base.item_ok(items[i]));
                assert(base.page_ok(root_of(items[i])));
                lemma_holds(base, u, q);
                assert forall|x: Pgid| #[trigger] holds(base.forest[q], x) implies holds(t, x) by {
                    assert(holds(u, x));
                    assert(sub_holds(subs[i], x));
                }
            },
            Tree::Branch { kids, .. } => {
                let i = choose|i: int| 0 <= i < kids.len() && holds(#[trigger] kids[i], q);
                let p = decode(base.store[t.pgid()])[i].pgid;
                assert(kids[i] == base.forest[p]);
                assert(base.page_ok(p));
                lemma_holds(base, kids[i], q);
                assert forall|x: Pgid| #[trigger] holds(base.forest[q], x) implies holds(t, x) by {
                    assert(holds(kids[i], x));
                }
            },
        }
    } else {
        assert(base.forest[q] == t);
    }
}

/// The pages that can be reached from page `root`, and those of a freelist.
pub open spec fn reached(base: Base, root: Pgid, list_pgid: Pgid, list_over: u32, limit: Pgid) -> Base {
    let set = page_set(base.forest[root]);
    Base {
        page_size: base.page_size,
        store: base.store,
        forest: base.forest.restrict(set),
        old: set,
        list_pgid,
        list_over,
        limit,
    }
}

/// What can be reached holds together.
pub proof fn lemma_reached(base: Base, root: Pgid, list_pgid: Pgid, list_over: u32, limit: Pgid)
    requires
        base.ok(),
        base.forest.contains_key(root),
        forall|q: Pgid| #[trigger] base.forest.contains_key(q) ==> q + base.forest[q].over() < limit,
        list_pgid != 0 ==> list_pgid > 1 && list_pgid + list_over < limit && !base.forest.contains_key(list_pgid),
    ensures
        reached(base, root, list_pgid, list_over, limit).ok(),
        reached(base, root, list_pgid, list_over, limit).old.contains(root),
        reached(base, root, list_pgid, list_over, limit).forest[root] == base.forest[root],
        forall|q: Pgid| #[trigger]
            reached(base, root, list_pgid, list_over, limit).old.contains(q) ==> base.forest.contains_key(q)
                && reached(base, root, list_pgid, list_over, limit).forest.contains_key(q)
                && reached(base, root, list_pgid, list_over, limit).forest[q] == base.forest[q],
        forall|q: Pgid| #[trigger]
            reached(base, root, list_pgid, list_over, limit).forest.contains_key(q) ==> reached(
                base,
                root,
                list_pgid,
                list_over,
                limit,
            ).old.contains(q),
{
    let f = reached(base, root, list_pgid, list_over, limit);
    let t = base.forest[root];
    assert(base.page_ok(root));
    assert forall|q: Pgid| #[trigger] f.old.contains(q) implies base.forest.contains_key(q) && f.forest.contains_key(q)
        && f.forest[q] == base.forest[q] by {
        lemma_holds(base, t, q);
    }
    assert forall|q: Pgid| #[trigger] f.forest.contains_key(q) implies f.page_ok(q) by {
        lemma_reached_page(base, root, list_pgid, list_over, limit, q);
    }
    assert forall|q: Pgid| #[trigger] f.old.contains(q) implies f.kids_old(q) by {
        lemma_holds(base, t, q);
        assert(base.page_ok(q));
        match base.forest[q] {
            Tree::Leaf { .. } => {},
            Tree::Branch { kids, .. } => {
                assert forall|i: int| 0 <= i < kids.len() implies f.old.contains((#[trigger] kids[i]).pgid()) by {
                    assert(holds(kids[i], kids[i].pgid()));
                    assert(holds(base.forest[q], kids[i].pgid()));
                }
            },
        }
    }
}

proof fn lemma_reached_page(base: Base, root: Pgid, list_pgid: Pgid, list_over: u32, limit: Pgid, q: Pgid)
    requires
        base.ok(),
        base.forest.contains_key(root),
        holds(base.forest[root], q),
    ensures
        reached(base, root, list_pgid, list_over, limit).page_ok(q),
{
    let f = reached(base, root, list_pgid, list_over, limit);
    let t = base.forest[root];
    assert(base.page_ok(root));
    lemma_holds(base, t, q);
    assert(base.page_ok(q));
    let u = base.forest[q];
    match u {
        Tree::Leaf { items, subs, .. } => {
            assert forall|i: int| 0 <= i < items.len() implies f.item_ok(#[trigger] items[i]) && f.sub(items[i])
                == base.sub(items[i]) by {
                assert(base.item_ok(items[i]));
                let item = items[i];
                if is_bucket(item) && root_of(item) != 0 {
                    let p = root_of(item);
                    assert(base.page_ok(p));
                    assert(subs[i] == Some(base.forest[p]));
                    assert(holds(base.forest[p], p));
                    assert(sub_holds(subs[i], p));
                    assert(holds(u, p));
                    assert(f.forest.contains_key(p));
                }
            }
            assert(f.subs(items) =~= base.subs(items));
        },
        Tree::Branch { keys, kids, .. } => {
            let page = base.store[q];
            assert forall|i: int| #![trigger kids[i]] 0 <= i < kids.len() implies f.forest.contains_key(
                decode(page)[i].pgid,
            ) && kids[i] == f.forest[decode(page)[i].pgid] && kids[i].first_key() == Some(keys[i]) by {
                let p = decode(page)[i].pgid;
                assert(kids[i] == base.forest[p]);
                assert(base.page_ok(p));
                assert(holds(kids[i], p));
                assert(holds(u, p));
                assert(f.forest.contains_key(p));
            }
        },
    }
}

/// What a page that can be reached covers is counted.
pub proof fn lemma_holds_refs(base: Base, t: Tree, q: Pgid, p: Pgid)
    requires
        base.ok(),
        base.forest.contains_key(t.pgid()),
        base.forest[t.pgid()] == t,
        holds(t, q),
    ensures
        base.forest[q].own(p) <= t.refs(p),
    decreases t,
{
    assert(base.page_ok(t.pgid()));
    if q != t.pgid() {
        match t {
            Tree::Leaf { items, subs, .. } => {
                let i = choose|i: int| 0 <= i < subs.len() && sub_holds(#[trigger] subs[i], q);
                assert(sub_holds(subs[i], q));
                assert(subs[i] == base.sub(items[i]));
                assert(base.item_ok(items[i]));
                assert(base.page_ok(root_of(items[i])));
                lemma_holds_refs(base, subs[i]->0, q, p);
                lemma_sub_counts(subs, i, p);
            },
            Tree::Branch { kids, .. } => {
                let i = choose|i: int| 0 <= i < kids.len() && holds(#[trigger] kids[i], q);
                let r = decode(base.store[t.pgid()])[i].pgid;
                assert(kids[i] == base.forest[r]);
                assert(base.page_ok(r));
                lemma_holds_refs(base, kids[i], q, p);
                lemma_cat_split(kids, i);
                assert(kids_ref(kids, p) == kids_ref(kids.take(i), p) + kids[i].refs(p) + kids_ref(kids.skip(i + 1), p));
            },
        }
    } else {
        match t {
            Tree::Leaf { .. } => {},
            Tree::Branch { .. } => {},
        }
    }
}

proof fn lemma_sub_counts(subs: Seq<Option<Tree>>, i: int, p: Pgid)
    requires
        0 <= i < subs.len(),
        subs[i] is Some,
    ensures
        subs[i]->0.refs(p) <= subs_ref(subs, p),
    decreases subs.len(),
{
    if i < subs.len() - 1 {
        lemma_sub_counts(subs.drop_last(), i, p);
    } else {
        assert(subs.last() == subs[i]);
    }
}

} // verus!
