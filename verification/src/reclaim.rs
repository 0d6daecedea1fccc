//! The free pages of a database that has not stored its freelist.
use std::collections::HashSet;
use vstd::prelude::*;
use crate::inode::{branch_pgid, decodable, decode, elem_ok, leaf_at};
use crate::node::{Base, Pages};
use crate::page::{header_of, BUCKET_LEAF_FLAG, InBucket, Meta, PageHeader, Pgid};
use crate::pgids::strictly_sorted;
use crate::snapshot::{lemma_same_contents, stored};
use crate::tree::{kids_ref, root_of, subs_ref, Tree};

verus! {

broadcast use vstd::std_specs::hash::group_hash_axioms;

/// The pages that a tree uses.
pub open spec fn used(t: Tree) -> Set<Pgid> {
    Set::new(|p: Pgid| t.refs(p) > 0)
}

/// The pages below the high water mark that are no meta pages and that nothing uses.
pub open spec fn unused(t: Tree, hwm: Pgid) -> Set<Pgid> {
    Set::new(|p: Pgid| 1 < p < hwm && t.refs(p) == 0)
}

/// The pages that a list of children uses.
pub open spec fn used_kids(kids: Seq<Tree>) -> Set<Pgid> {
    Set::new(|p: Pgid| kids_ref(kids, p) > 0)
}

/// The pages that a list of nested buckets uses.
pub open spec fn used_subs(subs: Seq<Option<Tree>>) -> Set<Pgid> {
    Set::new(|p: Pgid| subs_ref(subs, p) > 0)
}

/// Adds the pages that page `p` and all below it and nested in it use.
fn collect(pages: &Pages, p: Pgid, reach: &mut HashSet<Pgid>, Ghost(base): Ghost<Base>)
    requires
        base.ok(),
        pages.backs(base),
        forall|q: Pgid| #[trigger] base.forest.contains_key(q) ==> base.old.contains(q),
        base.old.contains(p),
    ensures
        final(reach)@ == old(reach)@.union(used(base.forest[p])),
    decreases base.forest[p], 0nat,
{
    let ghost t = base.forest[p];
    let ghost r0 = reach@;
    assert(base.page_ok(p));
    assert(base.kids_old(p));
    let page: &[u8] = pages.page(p);
    let hdr = PageHeader::read(page);
    let n: u64 = hdr.overflow as u64 + 1;
    let mut k: u64 = 0;
    while k < n
        invariant
            k <= n,
            n == t.over() + 1,
            p + t.over() < u64::MAX,
            forall|q: Pgid| #[trigger] reach@.contains(q) <==> r0.contains(q) || p <= q < p + k,
        decreases n - k,
    {
        reach.insert(p + k);
        k = k + 1;
    }
    let ghost r1 = reach@;
    if hdr.is_branch() {
        collect_kids(pages, page, reach, Ghost(p), Ghost(base));
        proof {
            assert forall|q: Pgid| #[trigger] reach@.contains(q) <==> r0.union(used(t)).contains(q) by {
                assert(t.refs(q) == t.own(q) + kids_ref(t->kids, q));
            }
            assert(reach@ =~= r0.union(used(t)));
        }
    } else {
        collect_subs(pages, page, reach, Ghost(p), Ghost(base));
        proof {
            assert forall|q: Pgid| #[trigger] reach@.contains(q) <==> r0.union(used(t)).contains(q) by {
                assert(t.refs(q) == t.own(q) + subs_ref(t->subs, q));
            }
            assert(reach@ =~= r0.union(used(t)));
        }
    }
}

/// The same of the pages below a branch page.
fn collect_kids(pages: &Pages, page: &[u8], reach: &mut HashSet<Pgid>, Ghost(p): Ghost<Pgid>, Ghost(base): Ghost<Base>)
    requires
        base.ok(),
        pages.backs(base),
        forall|q: Pgid| #[trigger] base.forest.contains_key(q) ==> base.old.contains(q),
        base.old.contains(p),
        page@ == base.store[p],
        base.forest[p] is Branch,
    ensures
        final(reach)@ == old(reach)@.union(used_kids(base.forest[p]->kids)),
    decreases base.forest[p]->kids, 1nat,
{
    let ghost t = base.forest[p];
    let ghost kids = t->kids;
    let ghost r0 = reach@;
    assert(base.page_ok(p));
    assert(base.kids_old(p));
    let count: usize = PageHeader::read(page).count as usize;
    let mut i: usize = 0;
    assert(kids.take(0) =~= Seq::<Tree>::empty());
    assert(reach@ =~= r0.union(used_kids(kids.take(0))));
    while i < count
        invariant
            i <= count,
            count == kids.len(),
            kids == base.forest[p]->kids,
            base.forest[p] is Branch,
            base.ok(),
            pages.backs(base),
            forall|q: Pgid| #[trigger] base.forest.contains_key(q) ==> base.old.contains(q),
            base.page_ok(p),
            base.kids_old(p),
            page@ == base.store[p],
            count == header_of(page@).count,
            decodable(page@),
            reach@ == r0.union(used_kids(kids.take(i as int))),
        decreases count - i,
    {
        assert(elem_ok(page@, i as int));
        let child: Pgid = branch_pgid(page, i);
        assert(decode(page@)[i as int].pgid == child);
        assert(kids[i as int] == base.forest[child]);
        assert(base.old.contains(child));
        let ghost before = reach@;
        assert(decreases_to!(kids => kids[i as int]));
        collect(pages, child, reach, Ghost(base));
        proof {
            assert(kids.take(i + 1).drop_last() =~= kids.take(i as int));
            assert(kids.take(i + 1).last() == kids[i as int]);
            assert(reach@ =~= r0.union(used_kids(kids.take(i + 1))));
        }
        i = i + 1;
    }
    assert(kids.take(i as int) =~= kids);
}

/// The same of the buckets nested in a leaf page.
fn collect_subs(pages: &Pages, page: &[u8], reach: &mut HashSet<Pgid>, Ghost(p): Ghost<Pgid>, Ghost(base): Ghost<Base>)
    requires
        base.ok(),
        pages.backs(base),
        forall|q: Pgid| #[trigger] base.forest.contains_key(q) ==> base.old.contains(q),
        base.old.contains(p),
        page@ == base.store[p],
        base.forest[p] is Leaf,
    ensures
        final(reach)@ == old(reach)@.union(used_subs(base.forest[p]->subs)),
    decreases base.forest[p]->subs, 1nat,
{
    let ghost t = base.forest[p];
    let ghost subs = t->subs;
    let ghost r0 = reach@;
    assert(base.page_ok(p));
    assert(base.kids_old(p));
    let count: usize = PageHeader::read(page).count as usize;
    let mut i: usize = 0;
    assert(subs.take(0) =~= Seq::<Option<Tree>>::empty());
    assert(reach@ =~= r0.union(used_subs(subs.take(0))));
    while i < count
        invariant
            i <= count,
            count == subs.len(),
            subs == base.forest[p]->subs,
            base.forest[p] is Leaf,
            base.ok(),
            pages.backs(base),
            forall|q: Pgid| #[trigger] base.forest.contains_key(q) ==> base.old.contains(q),
            base.page_ok(p),
            base.kids_old(p),
            page@ == base.store[p],
            count == header_of(page@).count,
            decodable(page@),
            reach@ == r0.union(used_subs(subs.take(i as int))),
        decreases count - i,
    {
        assert(elem_ok(page@, i as int));
        let (flags, _key, value) = leaf_at(page, i);
        let ghost item = decode(page@)[i as int];
        let ghost before = reach@;
        assert(base.item_ok(base.forest[p]->items[i as int]));
        assert(subs[i as int] == base.sub(item));
        assert(subs.take(i + 1).drop_last() =~= subs.take(i as int));
        assert(subs.take(i + 1).last() == subs[i as int]);
        if flags & BUCKET_LEAF_FLAG != 0 {
            let root: Pgid = InBucket::read(value).root;
            assert(root == root_of(item));
            if root != 0 {
                assert(base.forest.contains_key(root));
                assert(decreases_to!(subs => subs[i as int]));
                assert(decreases_to!(subs[i as int] => subs[i as int]->0));
                collect(pages, root, reach, Ghost(base));
            }
        }
        proof {
            assert(reach@ =~= r0.union(used_subs(subs.take(i + 1))));
        }
        i = i + 1;
    }
    assert(subs.take(i as int) =~= subs);
}

/// The pages of a database that nothing uses, sorted.
pub fn free_pages(pages: &Pages, meta: &Meta) -> (ids: Vec<Pgid>)
    requires
        exists|base: Base| #[trigger] stored(*pages, *meta, base),
    ensures
        strictly_sorted(ids@),
        forall|base: Base| #[trigger]
            stored(*pages, *meta, base) ==> ids@.to_set() == unused(base.forest[meta.root.root], meta.pgid),
{
    let ghost base = choose|base: Base| #[trigger] stored(*pages, *meta, base);
    let ghost t = base.forest[meta.root.root];
    let mut reach: HashSet<Pgid> = HashSet::new();
    collect(pages, meta.root.root, &mut reach, Ghost(base));
    assert(reach@ =~= used(t));
    let mut ids: Vec<Pgid> = Vec::new();
    let mut p: Pgid = 2;
    while p < meta.pgid
        invariant
            2 <= p,
            p <= meta.pgid || p == 2,
            reach@ == used(t),
            strictly_sorted(ids@),
            forall|q: Pgid| #[trigger] ids@.contains(q) <==> 1 < q < p && t.refs(q) == 0,
        decreases meta.pgid - p,
    {
        let ghost ids0 = ids@;
        if !reach.contains(&p) {
            ids.push(p);
            proof {
                assert(ids@[ids0.len() as int] == p);
                assert forall|x: int, y: int| 0 <= x < y < ids@.len() implies ids@[x] < ids@[y] by {
                    if y == ids0.len() {
                        assert(ids0.contains(ids0[x]));
                    }
                }
                assert forall|q: Pgid| #[trigger] ids@.contains(q) <==> ids0.contains(q) || q == p by {
                    if ids0.contains(q) {
                        assert(ids@[ids0.index_of(q)] == q);
                    }
                    if ids@.contains(q) && q != p {
                        assert(ids0[ids@.index_of(q)] == q);
                    }
                }
            }
        }
        p = p + 1;
    }
    proof {
        assert forall|other: Base| #[trigger] stored(*pages, *meta, other) implies ids@.to_set() == unused(
            other.forest[meta.root.root],
            meta.pgid,
        ) by {
            lemma_same_contents(*pages, *meta, base, other);
            assert(ids@.to_set() =~= unused(t, meta.pgid));
        }
    }
    ids
}

} // verus!
