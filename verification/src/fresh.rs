//! A new database.
use vstd::prelude::*;
use crate::contents::{contents, Item};
use crate::freelist::FreelistV;
use crate::inode::{decode, InodeV};
use crate::node::{Base, Pages};
use crate::page::{header_of, is_meta_page_of, set_page_count, set_page_flags, set_page_id, write_meta_page, FREELIST_PAGE_FLAG, InBucket, LEAF_PAGE_FLAG, MAGIC, Meta, PageHeader, Pgid, Txid, VERSION};
use crate::reach::page_set;
use crate::recovery::page_at;
use crate::snapshot::{can_begin, clear, stored};
use crate::tree::{Key, Tree};
use crate::tx::{list_known, list_own};
use crate::writer::{lemma_zero_header, page_size_ok, spare};

verus! {

/// The first two metas: an empty root bucket on page three and an empty freelist on page two.
pub open spec fn first_meta(page_size: u32, txid: Txid) -> Meta {
    Meta {
        magic: MAGIC,
        version: VERSION,
        page_size,
        flags: 0,
        root: InBucket { root: 3, sequence: 0 },
        freelist: 2,
        pgid: 4,
        txid,
        checksum: 0,
    }
}

/// A page without elements.
pub open spec fn bare_page(page: Seq<u8>, page_size: int, id: Pgid, flags: u16) -> bool {
    &&& page.len() == page_size
    &&& header_of(page) == (PageHeader { id, flags, count: 0, overflow: 0 })
    &&& forall|i: int| 16 <= i < page.len() ==> page[i] == 0
}

/// The file of a new database: two meta pages, the freelist, and an empty root bucket.
pub open spec fn fresh(image: Seq<u8>, page_size: u32) -> bool {
    let ps = page_size as int;
    &&& image.len() == 4 * ps
    &&& forall|i: int|
        0 <= i < 2 ==> {
            &&& is_meta_page_of(#[trigger] page_at(image, ps, i), first_meta(page_size, i as u64))
            &&& forall|j: int| 80 <= j < ps ==> page_at(image, ps, i)[j] == 0
        }
    &&& bare_page(page_at(image, ps, 2), ps, 2, FREELIST_PAGE_FLAG)
    &&& bare_page(page_at(image, ps, 3), ps, 3, LEAF_PAGE_FLAG)
}

fn meta_page(page_size: usize, txid: u64) -> (page: Vec<u8>)
    requires
        80 <= page_size <= u32::MAX,
        txid < 2,
    ensures
        page@.len() == page_size,
        is_meta_page_of(page@, first_meta(page_size as u32, txid)),
        forall|j: int| 80 <= j < page_size ==> page@[j] == 0,
{
    let mut meta = Meta {
        magic: MAGIC,
        version: VERSION,
        page_size: page_size as u32,
        flags: 0,
        root: InBucket::new(3, 0),
        freelist: 2,
        pgid: 4,
        txid,
        checksum: 0,
    };
    let mut page: Vec<u8> = vec![0u8; page_size];
    write_meta_page(&mut page, &meta);
    page
}

fn plain_page(page_size: usize, id: Pgid, flags: u16) -> (page: Vec<u8>)
    requires
        page_size >= 16,
    ensures
        bare_page(page@, page_size as int, id, flags),
{
    let mut page: Vec<u8> = vec![0u8; page_size];
    proof {
        lemma_zero_header(page@);
    }
    set_page_id(&mut page, id);
    set_page_flags(&mut page, flags);
    set_page_count(&mut page, 0);
    page
}

/// The file of a new database.
pub fn init_file(page_size: usize) -> (image: Vec<u8>)
    requires
        80 <= page_size <= u32::MAX,
        page_size * 4 <= usize::MAX,
    ensures
        fresh(image@, page_size as u32),
{
    let mut image: Vec<u8> = meta_page(page_size, 0);
    let ghost p0 = image@;
    let mut one: Vec<u8> = meta_page(page_size, 1);
    let ghost p1 = one@;
    let mut two: Vec<u8> = plain_page(page_size, 2, FREELIST_PAGE_FLAG);
    let ghost p2 = two@;
    let mut three: Vec<u8> = plain_page(page_size, 3, LEAF_PAGE_FLAG);
    let ghost p3 = three@;
    image.append(&mut one);
    image.append(&mut two);
    image.append(&mut three);
    proof {
        let ps = page_size as int;
        assert(0 * ps == 0 && (0 + 1) * ps == ps && (1 + 1) * ps == ps + ps && (2 + 1) * ps == ps + ps + ps && (3 + 1) * ps
            == ps + ps + ps + ps && 1 * ps == ps && 2 * ps == ps + ps && 3 * ps == ps + ps + ps) by (nonlinear_arith);
        assert(page_at(image@, ps, 0) =~= p0);
        assert(page_at(image@, ps, 1) =~= p1);
        assert(page_at(image@, ps, 2) =~= p2);
        assert(page_at(image@, ps, 3) =~= p3);
        assert forall|i: int| 0 <= i < 2 implies {
            &&& is_meta_page_of(#[trigger] page_at(image@, ps, i), first_meta(page_size as u32, i as u64))
            &&& forall|j: int| 80 <= j < ps ==> page_at(image@, ps, i)[j] == 0
        } by {
            assert(i == 0 || i == 1);
        }
    }
    image
}

/// The pages of a new database.
pub open spec fn fresh_base(page: Seq<u8>, page_size: int) -> Base {
    Base {
        page_size,
        store: Map::empty().insert(3, page),
        forest: Map::empty().insert(
            3,
            Tree::Leaf { pgid: 3, over: 0, items: Seq::empty(), subs: Seq::empty() },
        ),
        old: Set::empty().insert(3),
        list_pgid: 2,
        list_over: 0,
        limit: 4,
    }
}

/// A page of an image of whole pages is read as it is.
proof fn lemma_read(pages: Pages, p: Pgid)
    requires
        pages.page_size >= 16,
        (p + 1) * pages.page_size <= pages.image@.len(),
        header_of(page_at(pages.image@, pages.page_size as int, p as int)).overflow == 0,
    ensures
        pages.has(p),
        pages.bytes(p) == page_at(pages.image@, pages.page_size as int, p as int),
{
    let ps = pages.page_size as int;
    let start = p * ps;
    assert(start >= 0 && (p + 1) * ps == start + ps) by (nonlinear_arith)
        requires
            start == p * ps,
            p >= 0,
            ps > 0,
    ;
    let a = pages.image@.skip(start);
    let b = page_at(pages.image@, ps, p as int);
    assert forall|i: int| 0 <= i < 16 implies #[trigger] a[i] == b[i] by {
    }
    assert(header_of(a) == header_of(b));
    assert((0 + 1) * ps == ps) by (nonlinear_arith);
}

/// A new database can be read, and it holds nothing.
pub proof fn lemma_fresh_stored(pages: Pages, meta: Meta)
    requires
        page_size_ok(pages.page_size as int),
        fresh(pages.image@, pages.page_size as u32),
        meta.root.root == 3,
        meta.freelist == 2,
        meta.pgid == 4,
    ensures
        ({
            let base = fresh_base(page_at(pages.image@, pages.page_size as int, 3), pages.page_size as int);
            &&& stored(pages, meta, base)
            &&& base.forest[3].items().len() == 0
            &&& contents(base.forest[3]) == Seq::<(Key, Item)>::empty()
        }),
{
    let ps = pages.page_size as int;
    let page = page_at(pages.image@, ps, 3);
    let base = fresh_base(page, ps);
    let t = base.forest[3];
    lemma_read(pages, 3);
    lemma_read(pages, 2);
    assert(decode(page) =~= Seq::<InodeV>::empty());
    assert(base.subs(t.items()) =~= Seq::<Option<Tree>>::empty());
    assert(page.len() == (0 + 1) * ps);
    assert(base.page_ok(3));
    assert(t.wf(None, None, true)) by {
        reveal(Tree::wf_from);
    }
    assert(base.kids_old(3));
    assert(base.ok());
    assert(pages.backs(base));
    assert(page_set(t) =~= base.old) by {
        assert forall|q: Pgid| #[trigger] page_set(t).contains(q) <==> base.old.contains(q) by {
        }
    }
    assert(list_known(pages, meta, base)) by {
        reveal(list_known);
    }
    assert(contents(t) =~= Seq::<(Key, Item)>::empty());
}

/// The first write transaction can begin on a new database.
pub proof fn lemma_fresh_begins(pages: Pages, meta: Meta, list: FreelistV)
    requires
        page_size_ok(pages.page_size as int),
        fresh(pages.image@, pages.page_size as u32),
        meta.root.root == 3,
        meta.freelist == 2,
        meta.pgid == 4,
        meta.txid > 0,
        list.free == Set::<Pgid>::empty(),
        list.pending.dom() == Set::<Txid>::empty(),
        list.allocs.dom() == Set::<Pgid>::empty(),
    ensures
        can_begin(pages, meta, list, true),
{
    let base = fresh_base(page_at(pages.image@, pages.page_size as int, 3), pages.page_size as int);
    let t = base.forest[3];
    lemma_fresh_stored(pages, meta);
    assert(list.pending_pages() =~= Set::<Pgid>::empty());
    assert(list.all() =~= Set::<Pgid>::empty());
    assert forall|t: Txid| !#[trigger] list.pending.contains_key(t) by {
        assert(!list.pending.dom().contains(t));
    }
    assert forall|p: Pgid| !#[trigger] list.allocs.contains_key(p) by {
        assert(!list.allocs.dom().contains(p));
    }
    assert forall|p: Pgid| #[trigger] t.refs(p) + list_own(base, p) + spare(list, meta.pgid, p) <= 1 by {
        assert(!list.all().contains(p));
    }
    assert(clear(meta, base, list));
}

} // verus!
