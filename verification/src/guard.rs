//! Whether a file is in such a state that it can be searched, or its freelist taken over.
use std::collections::HashSet;
use vstd::prelude::*;
use crate::bytes::{read_u32, read_u64};
use crate::check::{bounded, bounded_root, bucket_root, kids_of, lemma_page_len, start_of};
use crate::freelist::FreelistV;
use crate::inode::{branch_ok, branch_pgid, leaf_at, leaf_ok};
use crate::lifecycle::list_fits;
use crate::node::Pages;
use crate::page::{header_of, BRANCH_PAGE_FLAG, BUCKET_LEAF_FLAG, FREELIST_PAGE_FLAG, InBucket, LEAF_PAGE_FLAG, Meta, PGID_NO_FREELIST, PageHeader, Pgid};
use crate::pgids::{freelist_ids, freelist_ok, freelist_seq};
use crate::spans::valid_id;

verus! {

/// Whether element `i` lies inside a leaf page.
fn leaf_inside(page: &[u8], i: usize) -> (r: bool)
    requires
        i < 0x1_0000,
    ensures
        r == leaf_ok(page@, i as int),
{
    let off: usize = 16 + 16 * i;
    if off + 16 > page.len() {
        return false;
    }
    let end: u64 = off as u64 + read_u32(page, off + 4) as u64 + read_u32(page, off + 8) as u64 + read_u32(
        page,
        off + 12,
    ) as u64;
    end <= page.len() as u64
}

/// Whether element `i` lies inside a branch page.
fn branch_inside(page: &[u8], i: usize) -> (r: bool)
    requires
        i < 0x1_0000,
    ensures
        r == branch_ok(page@, i as int),
{
    let off: usize = 16 + 16 * i;
    if off + 16 > page.len() {
        return false;
    }
    let end: u64 = off as u64 + read_u32(page, off) as u64 + read_u32(page, off + 4) as u64;
    end <= page.len() as u64
}

/// Whether page `p` and all that it leads to can be gone through in at most `n` steps down.
pub fn ends_within(pages: &Pages, p: Pgid, n: usize) -> (r: bool)
    requires
        pages.page_size >= 16,
    ensures
        r == bounded(*pages, p, n as nat),
    decreases n, 1nat,
{
    proof {
        reveal(bounded);
    }
    if !pages.holds(p) {
        return true;
    }
    if n == 0 {
        return false;
    }
    let page: &[u8] = pages.page(p);
    proof {
        lemma_page_len(*pages, p);
    }
    let hdr = PageHeader::read(page);
    if hdr.id > u64::MAX - hdr.overflow as u64 {
        return false;
    }
    if hdr.flags == BRANCH_PAGE_FLAG {
        return kids_end(pages, page, n - 1);
    }
    if hdr.flags == LEAF_PAGE_FLAG {
        return buckets_end(pages, page, n - 1);
    }
    true
}

/// The same of all children of a branch page.
fn kids_end(pages: &Pages, page: &[u8], n: usize) -> (r: bool)
    requires
        pages.page_size >= 16,
        page@.len() >= 16,
    ensures
        r == {
            &&& forall|i: int| 0 <= i < header_of(page@).count ==> #[trigger] branch_ok(page@, i)
            &&& forall|i: int|
                0 <= i < header_of(page@).count ==> bounded(*pages, #[trigger] kids_of(page@)[i], n as nat)
        },
    decreases n, 2nat,
{
    let count: usize = PageHeader::read(page).count as usize;
    let mut i: usize = 0;
    while i < count
        invariant
            i <= count,
            count == header_of(page@).count,
            pages.page_size >= 16,
            forall|j: int| 0 <= j < i ==> #[trigger] branch_ok(page@, j),
            forall|j: int| 0 <= j < i ==> bounded(*pages, #[trigger] kids_of(page@)[j], n as nat),
        decreases count - i,
    {
        if !branch_inside(page, i) {
            return false;
        }
        let child: Pgid = branch_pgid(page, i);
        assert(child == kids_of(page@)[i as int]);
        if !ends_within(pages, child, n) {
            return false;
        }
        i = i + 1;
    }
    true
}

/// The same of all buckets in a leaf page.
fn buckets_end(pages: &Pages, page: &[u8], n: usize) -> (r: bool)
    requires
        pages.page_size >= 16,
        page@.len() >= 16,
    ensures
        r == {
            &&& forall|i: int| 0 <= i < header_of(page@).count ==> #[trigger] leaf_ok(page@, i)
            &&& forall|i: int|
                0 <= i < header_of(page@).count && #[trigger] bucket_root(page@, i) != 0 ==> bounded(
                    *pages,
                    bucket_root(page@, i),
                    n as nat,
                )
        },
    decreases n, 2nat,
{
    let count: usize = PageHeader::read(page).count as usize;
    let mut i: usize = 0;
    while i < count
        invariant
            i <= count,
            count == header_of(page@).count,
            pages.page_size >= 16,
            forall|j: int| 0 <= j < i ==> #[trigger] leaf_ok(page@, j),
            forall|j: int|
                0 <= j < i && #[trigger] bucket_root(page@, j) != 0 ==> bounded(*pages, bucket_root(page@, j), n as nat),
        decreases count - i,
    {
        if !leaf_inside(page, i) {
            return false;
        }
        let (flags, _key, value) = leaf_at(page, i);
        if flags & BUCKET_LEAF_FLAG != 0 && value.len() >= 16 {
            let root: Pgid = InBucket::read(value).root;
            assert(root == bucket_root(page@, i as int));
            if root != 0 && !ends_within(pages, root, n) {
                return false;
            }
        } else {
            assert(bucket_root(page@, i as int) == 0);
        }
        i = i + 1;
    }
    true
}

/// Whether a database can be searched for damage, going down at most `n` steps.
pub fn can_check(pages: &Pages, meta: &Meta, page_id: u64, n: usize) -> (r: bool)
    ensures
        r == {
            &&& pages.page_size >= 16
            &&& meta.freelist != PGID_NO_FREELIST && pages.has(meta.freelist) ==> meta.freelist + header_of(
                pages.bytes(meta.freelist),
            ).overflow <= u64::MAX
            &&& bounded_root(*pages, start_of(*meta, page_id), n as nat)
        },
{
    if pages.page_size < 16 {
        return false;
    }
    if meta.freelist != PGID_NO_FREELIST && pages.holds(meta.freelist) {
        let page: &[u8] = pages.page(meta.freelist);
        proof {
            lemma_page_len(*pages, meta.freelist);
        }
        if meta.freelist > u64::MAX - PageHeader::read(page).overflow as u64 {
            return false;
        }
    }
    let start: Pgid = if page_id == 0 { meta.root.root } else { page_id };
    start == 0 || ends_within(pages, start, n)
}

/// Whether the ids of a freelist page lie inside it.
fn ids_inside(page: &[u8]) -> (r: bool)
    ensures
        r == freelist_ok(page@),
{
    if page.len() < 16 {
        return false;
    }
    let hdr = PageHeader::read(page);
    if hdr.flags != FREELIST_PAGE_FLAG {
        return false;
    }
    if hdr.count == 0xFFFF {
        if page.len() < 24 {
            return false;
        }
        let count: u64 = read_u64(page, 16);
        return count <= (page.len() as u64 - 24) / 8;
    }
    16 + 8 * (hdr.count as usize) <= page.len()
}

/// Whether an empty list can take over the freelist page that a meta names. Where there is none
/// that can be read there is nothing to take over.
pub fn can_load(pages: &Pages, meta: &Meta) -> (r: bool)
    ensures
        r == {
            &&& pages.page_size > 0
            &&& meta.freelist != PGID_NO_FREELIST && pages.has(meta.freelist) ==> forall|list: FreelistV|
                list.pending_pages() == Set::<Pgid>::empty() ==> #[trigger] list_fits(
                    pages.bytes(meta.freelist),
                    list,
                )
        },
{
    if pages.page_size == 0 {
        return false;
    }
    if meta.freelist == PGID_NO_FREELIST || !pages.holds(meta.freelist) {
        return true;
    }
    let page: &[u8] = pages.page(meta.freelist);
    let ghost none = FreelistV {
        kind: crate::freeset::FreelistType::Array,
        readonly: Seq::empty(),
        allocs: Map::empty(),
        pending: Map::empty(),
        free: Set::empty(),
    };
    proof {
        assert(none.pending_pages() =~= Set::<Pgid>::empty());
    }
    if !ids_inside(page) {
        assert(!list_fits(page@, none));
        return false;
    }
    let ids: Vec<Pgid> = freelist_ids(page);
    let mut seen: HashSet<Pgid> = HashSet::new();
    let mut i: usize = 0;
    while i < ids.len()
        invariant
            i <= ids@.len(),
            ids@ == freelist_seq(page@),
            page@ == pages.bytes(meta.freelist),
            none.pending_pages() == Set::<Pgid>::empty(),
            meta.freelist != PGID_NO_FREELIST,
            pages.has(meta.freelist),
            forall|p: Pgid| #[trigger] seen@.contains(p) <==> exists|j: int| 0 <= j < i && #[trigger] ids@[j] == p,
            forall|j: int| 0 <= j < i ==> valid_id(#[trigger] ids@[j]),
            forall|j: int, k: int| 0 <= j < k < i ==> ids@[j] != ids@[k],
        decreases ids@.len() - i,
    {
        let id: Pgid = ids[i];
        if id == 0 || id == u64::MAX {
            proof {
                assert(freelist_seq(page@).contains(ids@[i as int]));
                assert(!list_fits(page@, none));
            }
            return false;
        }
        if seen.contains(&id) {
            proof {
                let j = choose|j: int| 0 <= j < i && #[trigger] ids@[j] == id;
                assert(ids@[j] == ids@[i as int]);
                assert(!list_fits(page@, none));
            }
            return false;
        }
        seen.insert(id);
        i = i + 1;
        proof {
            assert forall|p: Pgid| #[trigger] seen@.contains(p) <==> exists|j: int| 0 <= j < i && #[trigger] ids@[j] == p by {
                assert(ids@[i - 1] == id);
            }
        }
    }
    proof {
        assert forall|list: FreelistV| list.pending_pages() == Set::<Pgid>::empty() implies #[trigger] list_fits(
            pages.bytes(meta.freelist),
            list,
        ) by {
            assert forall|p: Pgid| #[trigger] freelist_seq(page@).contains(p) implies valid_id(p) by {
                let j = ids@.index_of(p);
                assert(valid_id(ids@[j]));
            }
        }
    }
    true
}

} // verus!
