//! The pages that a write transaction adds to the database.
use vstd::prelude::*;
use crate::error::{Error, Result};
use crate::freelist::{Freelist, FreelistV};
use crate::inode::{decode, inodes_size, lemma_storable_len, lemma_written_decodes, page_len, storable, views, write_inodes, Inode, InodeV};
use crate::ledger::{ledger, listed, since};
use crate::node::Base;
use crate::page::{header_of, set_page_id, set_page_overflow, BRANCH_PAGE_FLAG, LEAF_PAGE_FLAG, PageHeader, Pgid, Txid};
use crate::pieces::{grew_by, lemma_grew_one};
use crate::spans::{id_range, is_run};
use crate::tree::{Key, Tree};

verus! {

/// How often page `p` is at hand: on the freelist, or behind the last page of the database.
pub open spec fn spare(list: FreelistV, hwm: Pgid, p: Pgid) -> nat {
    listed(list, p) + (if p >= hwm { 1nat } else { 0nat })
}

/// Page `q`, with its overflow, covers page `p`.
pub open spec fn covers(base: Base, q: Pgid, p: Pgid) -> bool {
    ||| base.forest.contains_key(q) && q <= p <= q + base.forest[q].over()
    ||| base.list_pgid != 0 && q == base.list_pgid && q <= p <= q + base.list_over
}

/// None of the known pages can be allocated.
pub open spec fn fenced(base: Base, list: FreelistV, hwm: Pgid) -> bool {
    &&& hwm > 1
    &&& !list.free.contains(1)
    &&& forall|q: Pgid, p: Pgid| #[trigger] covers(base, q, p) ==> !list.free.contains(p) && p < hwm
}

/// No two of the known pages overlap.
pub open spec fn apart(base: Base) -> bool {
    forall|q: Pgid, r: Pgid, p: Pgid| #[trigger] covers(base, q, p) && #[trigger] covers(base, r, p) ==> q == r
}

/// What a transaction writes.
pub struct Writer {
    pub page_size: usize,
    /// The largest size that the file may have, or zero.
    pub max_size: usize,
    pub txid: Txid,
    /// The first page behind the last one of the database.
    pub hwm: Pgid,
    /// The new pages.
    pub dirty: Vec<(Pgid, Vec<u8>)>,
    pub base: Ghost<Base>,
}

/// The page sizes that a database can have.
pub open spec fn page_size_ok(page_size: int) -> bool {
    1024 <= page_size <= 0x4000_0000
}

/// Asking for `count` pages behind page `hwm` is asking for too much.
pub open spec fn too_big(page_size: int, max_size: int, hwm: Pgid, count: int) -> bool {
    hwm + count > u64::MAX || max_size > 0 && (hwm + count + 1) * page_size > max_size
}

/// The number of pages that `len` bytes need.
pub open spec fn pages_for(len: int, page_size: int) -> int {
    (len + page_size - 1) / page_size
}

/// Page `p` holds four elements at most, or as many as fit on one page, and is no longer than they
/// need.
pub open spec fn trim(base: Base, p: Pgid) -> bool {
    let v = decode(base.store[p]);
    &&& v.len() <= 4 || page_len(v) <= base.page_size
    &&& base.forest[p].over() + 1 == pages_for(page_len(v), base.page_size)
}

impl Writer {
    /// The new pages are those that were not there when the transaction began.
    pub open spec fn ok(&self, list: FreelistV) -> bool {
        &&& page_size_ok(self.page_size as int)
        &&& self.base@.page_size == self.page_size
        &&& self.base@.ok()
        &&& ledger(list, self.base@, self.txid)
        &&& fenced(self.base@, list, self.hwm)
        &&& apart(self.base@)
        &&& forall|p: Pgid| #[trigger] spare(list, self.hwm, p) <= 1
        &&& forall|i: int, j: int|
            0 <= i < j < self.dirty@.len() ==> (#[trigger] self.dirty@[i]).0 != (#[trigger] self.dirty@[j]).0
        &&& forall|i: int|
            0 <= i < self.dirty@.len() ==> {
                &&& self.base@.forest.contains_key((#[trigger] self.dirty@[i]).0)
                &&& !self.base@.old.contains(self.dirty@[i].0)
                &&& self.base@.store[self.dirty@[i].0] == self.dirty@[i].1@
            }
        &&& forall|p: Pgid| #[trigger]
            self.base@.forest.contains_key(p) && !self.base@.old.contains(p) ==> exists|i: int|
                0 <= i < self.dirty@.len() && (#[trigger] self.dirty@[i]).0 == p
        &&& forall|p: Pgid|
            self.base@.forest.contains_key(p) && !self.base@.old.contains(p) ==> #[trigger] trim(self.base@, p)
    }

    /// Takes `count` pages that are not in use, and gives an empty buffer for them.
    pub fn allocate(&mut self, fl: &mut Freelist, count: usize) -> (r: Result<(Pgid, Vec<u8>)>)
        requires
            old(fl).inv(),
            old(self).ok(old(fl)@),
            1 <= count <= 0x1_0000_0000,
            count * old(self).page_size <= usize::MAX,
        ensures
            final(fl).inv(),
            final(self).ok(final(fl)@),
            since(old(fl)@, final(fl)@, old(self).txid),
            final(self).dirty@ == old(self).dirty@,
            final(self).base == old(self).base,
            final(self).page_size == old(self).page_size,
            final(self).max_size == old(self).max_size,
            final(self).txid == old(self).txid,
            final(self).hwm >= old(self).hwm,
            match r {
                Ok((id, buf)) => {
                    &&& id > 1
                    &&& id + count <= u64::MAX
                    &&& id + count <= final(self).hwm
                    &&& buf@.len() == count * old(self).page_size
                    &&& header_of(buf@) == (PageHeader { id, flags: 0, count: 0, overflow: (count - 1) as u32 })
                    &&& forall|p: Pgid| #[trigger]
                        spare(old(fl)@, old(self).hwm, p) == spare(final(fl)@, final(self).hwm, p) + (if id <= p < id
                            + count {
                            1nat
                        } else {
                            0nat
                        })
                    &&& forall|p: Pgid| id <= p < id + count ==> !(#[trigger] final(fl)@.free.contains(p))
                    &&& forall|q: Pgid, p: Pgid| #[trigger]
                        covers(old(self).base@, q, p) ==> !(id <= p < id + count)
                    &&& if old(self).hwm <= id {
                        &&& id == old(self).hwm
                        &&& final(self).hwm == id + count
                        &&& final(fl)@ == old(fl)@
                        &&& forall|s: int| !is_run(old(fl)@.free, s, count as int)
                        &&& !too_big(old(self).page_size as int, old(self).max_size as int, old(self).hwm, count as int)
                    } else {
                        &&& final(self).hwm == old(self).hwm
                        &&& is_run(old(fl)@.free, id as int, count as int)
                    }
                },
                Err(e) => {
                    &&& e is MaxSizeReached
                    &&& final(fl)@ == old(fl)@
                    &&& final(self).hwm == old(self).hwm
                    &&& forall|s: int| !is_run(old(fl)@.free, s, count as int)
                    &&& too_big(old(self).page_size as int, old(self).max_size as int, old(self).hwm, count as int)
                },
            },
    {
        let ghost list0 = fl@;
        let ghost base = self.base@;
        let ghost w0 = *self;
        let n: usize = count * self.page_size;
        proof {
            assert(self.page_size <= count * self.page_size) by (nonlinear_arith)
                requires
                    count >= 1,
                    self.page_size >= 0,
            ;
            assert(count <= count * self.page_size) by (nonlinear_arith)
                requires
                    count >= 0,
                    self.page_size >= 1,
            ;
        }
        let mut buf: Vec<u8> = vec![0u8; n];
        assert(forall|i: int| 0 <= i < n ==> buf@[i] == 0);
        proof {
            assert(header_of(buf@) == (PageHeader { id: 0, flags: 0, count: 0, overflow: 0 })) by {
                lemma_zero_header(buf@);
            }
        }
        set_page_overflow(&mut buf, (count - 1) as u32);
        let id: Pgid = fl.allocate(self.txid, count);
        if id != 0 {
            set_page_id(&mut buf, id);
            proof {
                lemma_allocated(w0, list0, fl@, id, count as int);
                fl.lemma_inv();
            }
            return Ok((id, buf));
        }
        let id: Pgid = self.hwm;
        if (count as u64) > u64::MAX - id {
            return Err(Error::MaxSizeReached);
        }
        proof {
            assert((id + count + 1) * self.page_size <= 0x2_0000_0000_0000_0000 * 0x4000_0000) by (nonlinear_arith)
                requires
                    id + count + 1 <= 0x2_0000_0000_0000_0000,
                    0 <= id + count + 1,
                    0 <= self.page_size <= 0x4000_0000,
            ;
        }
        let minsz: u128 = (id as u128 + count as u128 + 1) * (self.page_size as u128);
        if self.max_size > 0 && minsz > self.max_size as u128 {
            return Err(Error::MaxSizeReached);
        }
        self.hwm = id + count as u64;
        set_page_id(&mut buf, id);
        proof {
            assert forall|p: Pgid| #[trigger] spare(list0, w0.hwm, p) == spare(fl@, self.hwm, p) + (if id <= p < id + count {
                1nat
            } else {
                0nat
            }) by {
                assert(spare(list0, w0.hwm, p) <= 1);
            }
            assert forall|p: Pgid| #[trigger] spare(fl@, self.hwm, p) <= 1 by {
                assert(spare(list0, w0.hwm, p) <= 1);
            }
            assert forall|p: Pgid| id <= p < id + count implies !(#[trigger] fl@.free.contains(p)) by {
                assert(spare(list0, w0.hwm, p) <= 1);
                assert(fl@.free.contains(p) ==> fl@.all().contains(p));
            }
        }
        Ok((id, buf))
    }
}

/// A page of zeroes has a header of zeroes.
pub proof fn lemma_zero_header(s: Seq<u8>)
    requires
        s.len() >= 16,
        forall|i: int| 0 <= i < s.len() ==> s[i] == 0,
    ensures
        header_of(s) == (PageHeader { id: 0, flags: 0, count: 0, overflow: 0 }),
{
}

/// What taking a run of pages from the freelist does.
proof fn lemma_allocated(w: Writer, list0: FreelistV, list1: FreelistV, id: Pgid, count: int)
    requires
        w.ok(list0),
        count >= 1,
        id != 0,
        is_run(list0.free, id as int, count),
        list1 == (FreelistV {
            free: list0.free.difference(id_range(id as int, id + count)),
            allocs: list0.allocs.insert(id, w.txid),
            ..list0
        }),
        list1.ok(),
    ensures
        w.ok(list1),
        since(list0, list1, w.txid),
        id > 1,
        id + count <= w.hwm,
        forall|p: Pgid| #[trigger]
            spare(list0, w.hwm, p) == spare(list1, w.hwm, p) + (if id <= p < id + count { 1nat } else { 0nat }),
        forall|q: Pgid, p: Pgid| #[trigger] covers(w.base@, q, p) ==> !(id <= p < id + count),
{
    assert(list0.free.contains(id));
    assert(list1.pending_pages() =~= list0.pending_pages());
    assert forall|p: Pgid| #[trigger] list1.all().contains(p) implies p < w.base@.limit by {
        assert(list0.all().contains(p));
    }
    assert forall|p: Pgid| #[trigger]
        spare(list0, w.hwm, p) == spare(list1, w.hwm, p) + (if id <= p < id + count { 1nat } else { 0nat }) by {
        if id <= p < id + count {
            assert(list0.free.contains(p));
            assert(!list0.pending_pages().contains(p)) by {
                if list0.pending_pages().contains(p) {
                    let t = choose|t: Txid| #[trigger]
                        list0.pending.contains_key(t) && list0.pending[t].pages.contains_key(p);
                    assert(list0.pending.contains_key(t) && list0.pending[t].pages.contains_key(p));
                }
            }
        }
    }
    assert forall|p: Pgid| #[trigger] spare(list1, w.hwm, p) <= 1 by {
        assert(spare(list0, w.hwm, p) <= 1);
    }
    assert forall|q: Pgid, p: Pgid| #[trigger] covers(w.base@, q, p) implies !(id <= p < id + count) by {
        if id <= p < id + count {
            assert(list0.free.contains(p));
        }
    }
    assert(list1.pending_of(w.txid) == list0.pending_of(w.txid));
    assert forall|p: Pgid| #[trigger] list1.allocs.contains_key(p) && list1.allocs[p] == w.txid implies !w.base@.there(p) by {
        if p == id {
            if w.base@.there(id) {
                assert(w.base@.old.contains(id) ==> w.base@.forest.contains_key(id));
                assert(covers(w.base@, id, id));
            }
        }
    }
    let last = (id + count - 1) as u64;
    assert(list0.free.contains(last));
    assert(spare(list0, w.hwm, last) <= 1);
    assert(list0.all().contains(last));
}

/// `b` has the pages that `a` has, and maybe more.
pub open spec fn extends(a: Base, b: Base) -> bool {
    &&& b.page_size == a.page_size
    &&& b.old == a.old
    &&& b.list_pgid == a.list_pgid
    &&& b.list_over == a.list_over
    &&& b.limit == a.limit
    &&& forall|p: Pgid| #[trigger] a.forest.contains_key(p) ==> b.forest.contains_key(p) && b.forest[p] == a.forest[p]
        && b.store[p] == a.store[p]
}

/// The elements that a new page can have.
pub open spec fn entries_ok(base: Base, is_leaf: bool, v: Seq<InodeV>) -> bool {
    &&& forall|i: int| 0 <= i < v.len() ==> (#[trigger] v[i]).key.len() > 0
    &&& is_leaf ==> forall|i: int| 0 <= i < v.len() ==> (#[trigger] v[i]).pgid == 0 && base.item_ok(v[i])
    &&& !is_leaf ==> forall|i: int|
        0 <= i < v.len() ==> {
            &&& (#[trigger] v[i]).flags == 0
            &&& v[i].value.len() == 0
            &&& base.forest.contains_key(v[i].pgid)
            &&& base.forest[v[i].pgid].first_key() == Some(v[i].key)
        }
}

/// The keys of elements.
pub open spec fn keys_of(v: Seq<InodeV>) -> Seq<Key> {
    Seq::new(v.len(), |i: int| v[i].key)
}

/// The trees below elements of a branch.
pub open spec fn kids_of(base: Base, v: Seq<InodeV>) -> Seq<Tree> {
    Seq::new(v.len(), |i: int| base.forest[v[i].pgid])
}

/// What a new page with these elements holds.
pub open spec fn new_tree(base: Base, is_leaf: bool, pgid: Pgid, over: u32, v: Seq<InodeV>) -> Tree {
    if is_leaf {
        Tree::Leaf { pgid, over, items: v, subs: base.subs(v) }
    } else {
        Tree::Branch { pgid, over, keys: keys_of(v), kids: kids_of(base, v) }
    }
}

/// The pages with one more.
pub open spec fn grown(base: Base, pgid: Pgid, page: Seq<u8>, t: Tree) -> Base {
    Base { store: base.store.insert(pgid, page), forest: base.forest.insert(pgid, t), ..base }
}

/// A page that was written holds what was written to it.
proof fn lemma_grown(base: Base, is_leaf: bool, pgid: Pgid, over: u32, v: Seq<InodeV>, page: Seq<u8>)
    requires
        base.ok(),
        !base.forest.contains_key(pgid),
        base.list_pgid != 0 ==> pgid != base.list_pgid,
        !base.old.contains(pgid),
        entries_ok(base, is_leaf, v),
        pgid > 1,
        pgid + over < u64::MAX,
        page.len() == (over + 1) * base.page_size,
        page.len() >= 16,
        header_of(page).id == pgid,
        header_of(page).overflow == over,
        header_of(page).flags == (if is_leaf { LEAF_PAGE_FLAG } else { BRANCH_PAGE_FLAG }),
        crate::inode::decodable(page),
        decode(page) == v,
    ensures
        grown(base, pgid, page, new_tree(base, is_leaf, pgid, over, v)).ok(),
        extends(base, grown(base, pgid, page, new_tree(base, is_leaf, pgid, over, v))),
{
    let t = new_tree(base, is_leaf, pgid, over, v);
    let b = grown(base, pgid, page, t);
    assert(extends(base, b));
    assert forall|p: Pgid| #[trigger] b.forest.contains_key(p) implies b.page_ok(p) by {
        if p == pgid {
            if is_leaf {
                assert forall|i: int| 0 <= i < v.len() implies b.item_ok(#[trigger] v[i]) by {
                    assert(base.item_ok(v[i]));
                    lemma_item_grows(base, b, v[i]);
                }
                assert(b.subs(v) =~= base.subs(v)) by {
                    assert forall|i: int| 0 <= i < v.len() implies b.sub(v[i]) == base.sub(v[i]) by {
                        assert(base.item_ok(v[i]));
                        lemma_item_grows(base, b, v[i]);
                    }
                }
            } else {
                assert forall|i: int| #![trigger kids_of(base, v)[i]] 0 <= i < v.len() implies b.forest.contains_key(
                    decode(page)[i].pgid,
                ) && kids_of(base, v)[i] == b.forest[decode(page)[i].pgid] && kids_of(base, v)[i].first_key() == Some(
                    keys_of(v)[i],
                ) by {
                    assert(base.forest.contains_key(v[i].pgid));
                }
            }
        } else {
            lemma_page_grows(base, b, p);
        }
    }
    assert forall|p: Pgid| #[trigger] b.old.contains(p) implies b.forest.contains_key(p) && b.kids_old(p) by {
        assert(base.forest.contains_key(p) && base.kids_old(p));
    }
}

/// A leaf element that is fine stays so when there are more pages.
pub proof fn lemma_item_grows(a: Base, b: Base, item: InodeV)
    requires
        extends(a, b),
        a.item_ok(item),
    ensures
        b.item_ok(item),
        b.sub(item) == a.sub(item),
{
}

/// A page that holds its tree still does when there are more pages.
pub proof fn lemma_page_grows(a: Base, b: Base, p: Pgid)
    requires
        extends(a, b),
        a.ok(),
        a.forest.contains_key(p),
        b.store.contains_key(p),
    ensures
        b.page_ok(p),
{
    assert(a.page_ok(p));
    match a.forest[p] {
        Tree::Leaf { items, .. } => {
            assert forall|i: int| 0 <= i < items.len() implies b.item_ok(#[trigger] items[i]) by {
                lemma_item_grows(a, b, items[i]);
            }
            assert(b.subs(items) =~= a.subs(items)) by {
                assert forall|i: int| 0 <= i < items.len() implies b.sub(items[i]) == a.sub(items[i]) by {
                    assert(a.item_ok(items[i]));
                    lemma_item_grows(a, b, items[i]);
                }
            }
        },
        Tree::Branch { kids, .. } => {
            assert forall|i: int| #![trigger kids[i]] 0 <= i < kids.len() implies b.forest.contains_key(
                decode(b.store[p])[i].pgid,
            ) && kids[i] == b.forest[decode(b.store[p])[i].pgid] by {
                assert(kids[i] == a.forest[decode(a.store[p])[i].pgid]);
                assert(a.forest.contains_key(decode(a.store[p])[i].pgid));
            }
        },
    }
}

/// Page `pgid` holds just these elements, on as many pages as they need.
pub open spec fn page_holds(b: Base, is_leaf: bool, pgid: Pgid, v: Seq<InodeV>) -> bool {
    &&& b.forest.contains_key(pgid)
    &&& b.forest[pgid] is Leaf == is_leaf
    &&& decode(b.store[pgid]) == v
    &&& b.forest[pgid].over() + 1 == pages_for(page_len(v), b.page_size)
}

/// A file that has grown so that page `hwm` is the next one, and not page `before` any more, is within
/// its limit.
#[verifier::opaque]
pub open spec fn in_limit(before: Pgid, hwm: Pgid, page_size: int, max_size: int) -> bool {
    hwm > before && max_size > 0 ==> (hwm + 1) * page_size <= max_size
}

/// From `w0` to `w1` the file has not grown beyond its limit.
pub open spec fn within_limit(w0: Writer, w1: Writer) -> bool {
    w1.hwm == w0.hwm || in_limit(w0.hwm, w1.hwm, w0.page_size as int, w0.max_size as int)
}

impl Writer {
    /// The end of the file, with the pages that were added.
    pub open spec fn end(self) -> int {
        self.page_size * self.hwm
    }

    /// Writes elements to a new page.
    pub fn emit(&mut self, fl: &mut Freelist, is_leaf: bool, inodes: &[Inode]) -> (r: Result<Pgid>)
        requires
            old(fl).inv(),
            old(self).ok(old(fl)@),
            entries_ok(old(self).base@, is_leaf, views(inodes@)),
            inodes@.len() < 0xFFFF,
            inodes@.len() <= 4 || page_len(views(inodes@)) <= old(self).page_size,
            storable(views(inodes@)),
            page_len(views(inodes@)) + old(self).page_size <= usize::MAX,
        ensures
            final(fl).inv(),
            final(self).ok(final(fl)@),
            since(old(fl)@, final(fl)@, old(self).txid),
            final(self).page_size == old(self).page_size,
            final(self).max_size == old(self).max_size,
            final(self).txid == old(self).txid,
            final(self).hwm >= old(self).hwm,
            within_limit(*old(self), *final(self)),
            extends(old(self).base@, final(self).base@),
            r matches Ok(pgid) ==> {
                &&& grew_by(*old(self), *final(self), final(fl)@, seq![views(inodes@)])
                &&& !old(self).base@.forest.contains_key(pgid)
                &&& final(self).base@.forest.contains_key(pgid)
                &&& final(self).base@.forest[pgid] == new_tree(
                    old(self).base@,
                    is_leaf,
                    pgid,
                    final(self).base@.forest[pgid].over(),
                    views(inodes@),
                )
                &&& page_holds(final(self).base@, is_leaf, pgid, views(inodes@))
                &&& final(self).end() <= old(self).end() + page_len(views(inodes@)) + old(self).page_size
                &&& forall|p: Pgid| #[trigger]
                    spare(old(fl)@, old(self).hwm, p) == spare(final(fl)@, final(self).hwm, p)
                        + final(self).base@.forest[pgid].own(p)
            },
            r matches Err(e) ==> {
                &&& e is MaxSizeReached
                &&& final(self).base == old(self).base
                &&& final(self).hwm == old(self).hwm
                &&& stuck_at(
                    *final(self),
                    final(fl)@,
                    pages_for(page_len(views(inodes@)), old(self).page_size as int),
                )
            },
    {
        let ghost w0 = *self;
        let ghost base = self.base@;
        let ghost v = views(inodes@);
        let ghost list0 = fl@;
        proof {
            reveal(in_limit);
        }
        let size: usize = inodes_size(is_leaf, inodes);
        let npages: usize = (size + (self.page_size - 1)) / self.page_size;
        proof {
            assert(v.take(v.len() as int) =~= v);
            if v.len() <= 4 {
                lemma_storable_len(v, v.len() as int);
            }
            assert(npages <= 0x400_0000) by (nonlinear_arith)
                requires
                    npages == (size + (self.page_size - 1)) / self.page_size as int,
                    self.page_size >= 1024,
                    size <= 0x9_0000_0000 || size <= self.page_size,
            ;
            assert(npages >= 1 && size <= npages * self.page_size && npages * self.page_size < size + self.page_size)
                by (nonlinear_arith)
                requires
                    npages == (size + (self.page_size - 1)) / self.page_size as int,
                    self.page_size > 0,
                    size >= 1,
            ;
        }
        match self.allocate(fl, npages) {
            Err(e) => Err(e),
            Ok((pgid, buf)) => {
                let ghost w1 = *self;
                let mut buf: Vec<u8> = buf;
                let over: u32 = (npages - 1) as u32;
                proof {
                    assert(!base.forest.contains_key(pgid)) by {
                        if base.forest.contains_key(pgid) {
                            assert(covers(base, pgid, pgid));
                        }
                    }
                    assert(base.list_pgid != 0 ==> pgid != base.list_pgid) by {
                        if base.list_pgid != 0 && pgid == base.list_pgid {
                            assert(covers(base, pgid, pgid));
                        }
                    }
                    assert(npages <= npages * self.page_size) by (nonlinear_arith)
                        requires
                            self.page_size >= 1,
                            npages >= 0,
                    ;
                    if !is_leaf {
                        assert forall|i: int| 0 <= i < inodes@.len() implies (#[trigger] inodes@[i]).pgid != pgid by {
                            assert(v[i].pgid == inodes@[i].pgid);
                        }
                    }
                    assert forall|i: int| 0 <= i < inodes@.len() implies (#[trigger] inodes@[i]).key@.len() > 0 by {
                        assert(v[i].key == inodes@[i].key@);
                    }
                }
                let ghost b0 = buf@;
                write_inodes(&mut buf, is_leaf, inodes);
                let ghost page = buf@;
                let ghost t = new_tree(base, is_leaf, pgid, over, v);
                proof {
                    lemma_written_decodes(b0, page, is_leaf, v);
                    lemma_grown(base, is_leaf, pgid, over, v, page);
                    self.base@ = grown(base, pgid, page, t);
                }
                self.dirty.push((pgid, buf));
                proof {
                    assert(self.dirty@.drop_last() =~= w1.dirty@);
                    lemma_emitted(w1, *self, fl@, pgid, over, page, t);
                    assert forall|p: Pgid| #[trigger]
                        spare(list0, w0.hwm, p) == spare(fl@, self.hwm, p) + self.base@.forest[pgid].own(p) by {
                    }
                    assert(new_tree(base, is_leaf, pgid, over, v) == self.base@.forest[pgid]);
                    lemma_end(w0, w1, npages as int);
                    lemma_grew_one(w0.hwm as int, self.hwm as int, w0.page_size as int, fl@, v);
                }
                Ok(pgid)
            },
        }
    }
}

proof fn lemma_end(w0: Writer, w1: Writer, count: int)
    requires
        w1.page_size == w0.page_size,
        w1.hwm <= w0.hwm + count,
    ensures
        w1.end() <= w0.end() + w0.page_size * count,
{
    assert(w0.page_size * w1.hwm <= w0.page_size * w0.hwm + w0.page_size * count) by (nonlinear_arith)
        requires
            w1.hwm <= w0.hwm + count,
            w0.page_size >= 0,
    ;
}

/// The pages that some elements of a node need could not be had: four elements at most, or as many
/// as fit on one page. With them the file would not have gone beyond `top`. Which elements these are
/// is said by the pieces at which the writing halted.
pub open spec fn stuck(w: Writer, list: FreelistV, top: int) -> bool {
    exists|part: Seq<InodeV>| #[trigger] stuck_on(w, list, part, top)
}

/// The pages that `part` needs could not be had.
pub open spec fn stuck_on(w: Writer, list: FreelistV, part: Seq<InodeV>, top: int) -> bool {
    let count = pages_for(page_len(part), w.page_size as int);
    &&& part.len() <= 4 || page_len(part) <= w.page_size
    &&& stuck_at(w, list, count)
    &&& w.page_size * (w.hwm + count) <= top
}

/// What would not have gone beyond some point would not have gone beyond a later one.
pub proof fn lemma_stuck_below(w: Writer, list: FreelistV, top: int, top2: int)
    requires
        stuck(w, list, top),
        top <= top2,
    ensures
        stuck(w, list, top2),
{
    let part = choose|part: Seq<InodeV>| #[trigger] stuck_on(w, list, part, top);
    assert(stuck_on(w, list, part, top2));
}

/// Elements for which no page could be had.
pub proof fn lemma_stuck_on(w: Writer, list: FreelistV, part: Seq<InodeV>)
    requires
        part.len() <= 4 || page_len(part) <= w.page_size,
        stuck_at(w, list, pages_for(page_len(part), w.page_size as int)),
        w.page_size > 0,
    ensures
        stuck(w, list, w.end() + page_len(part) + w.page_size),
{
    let len = page_len(part);
    let count = pages_for(len, w.page_size as int);
    assert(w.page_size * (w.hwm + count) <= w.page_size * w.hwm + len + w.page_size) by (nonlinear_arith)
        requires
            count == (len + w.page_size - 1) / (w.page_size as int),
            w.page_size > 0,
    ;
    assert(stuck_on(w, list, part, w.end() + len + w.page_size));
}

/// `count` pages cannot be had: there is no such run of free pages, and the file must not grow
/// that much.
pub open spec fn stuck_at(w: Writer, list: FreelistV, count: int) -> bool {
    &&& 1 <= count
    &&& forall|s: int| !is_run(list.free, s, count)
    &&& too_big(w.page_size as int, w.max_size as int, w.hwm, count)
}

proof fn lemma_emitted(w0: Writer, w1: Writer, list: FreelistV, pgid: Pgid, over: u32, page: Seq<u8>, t: Tree)
    requires
        w0.ok(list),
        !w0.base@.forest.contains_key(pgid),
        w1.base@ == grown(w0.base@, pgid, page, t),
        w1.base@.ok(),
        t.pgid() == pgid,
        t.over() == over,
        w1.page_size == w0.page_size,
        w1.txid == w0.txid,
        w1.hwm == w0.hwm,
        w1.dirty@.len() == w0.dirty@.len() + 1,
        w1.dirty@.drop_last() == w0.dirty@,
        w1.dirty@.last().0 == pgid,
        w1.dirty@.last().1@ == page,
        trim(w1.base@, pgid),
        pgid + over < w0.hwm,
        forall|p: Pgid| pgid <= p <= pgid + over ==> !(#[trigger] list.free.contains(p)),
        forall|q: Pgid, p: Pgid| #[trigger] covers(w0.base@, q, p) ==> !(pgid <= p <= pgid + over),
    ensures
        w1.ok(list),
{
    let n = w0.dirty@.len() as int;
    assert forall|p: Pgid| w1.base@.forest.contains_key(p) && !w1.base@.old.contains(p) implies #[trigger]
        trim(w1.base@, p) by {
        if p != pgid {
            assert(trim(w0.base@, p));
        }
    }
    assert forall|q: Pgid, r: Pgid, p: Pgid| #[trigger] covers(w1.base@, q, p) && #[trigger]
        covers(w1.base@, r, p) implies q == r by {
        if q != pgid {
            assert(covers(w0.base@, q, p));
        }
        if r != pgid {
            assert(covers(w0.base@, r, p));
        }
    }
    assert forall|i: int, j: int| 0 <= i < j < w1.dirty@.len() implies (#[trigger] w1.dirty@[i]).0 != (
    #[trigger] w1.dirty@[j]).0 by {
        assert(w1.dirty@[i] == w0.dirty@[i]);
        if j < n {
            assert(w1.dirty@[j] == w0.dirty@[j]);
        } else {
            assert(w0.base@.forest.contains_key(w0.dirty@[i].0));
        }
    }
    assert(!w0.base@.old.contains(pgid));
    assert forall|i: int| 0 <= i < w1.dirty@.len() implies w1.base@.forest.contains_key((#[trigger] w1.dirty@[i]).0)
        && !w1.base@.old.contains(w1.dirty@[i].0) && w1.base@.store[w1.dirty@[i].0] == w1.dirty@[i].1@ by {
        if i < n {
            assert(w1.dirty@[i] == w0.dirty@[i]);
        }
    }
    assert forall|p: Pgid| #[trigger] w1.base@.forest.contains_key(p) && !w1.base@.old.contains(p) implies exists|i: int|
        0 <= i < w1.dirty@.len() && (#[trigger] w1.dirty@[i]).0 == p by {
        if p == pgid {
            assert(w1.dirty@[n].0 == p);
        } else {
            let i = choose|i: int| 0 <= i < w0.dirty@.len() && (#[trigger] w0.dirty@[i]).0 == p;
            assert(w1.dirty@[i] == w0.dirty@[i]);
        }
    }
    assert forall|q: Pgid, p: Pgid| #[trigger] covers(w1.base@, q, p) implies !list.free.contains(p) && p < w1.hwm by {
        if q != pgid {
            assert(covers(w0.base@, q, p));
        }
    }
}

/// As many pages are taken as are needed, and not one more.
pub proof fn lemma_pages_for(len: int, page_size: int)
    requires
        page_size > 0,
        len > 0,
    ensures
        (pages_for(len, page_size) - 1) * page_size < len <= pages_for(len, page_size) * page_size,
{
    let n = (len + page_size - 1) / page_size;
    vstd::arithmetic::div_mod::lemma_fundamental_div_mod(len + page_size - 1, page_size);
    vstd::arithmetic::div_mod::lemma_mod_bound(len + page_size - 1, page_size);
    assert(n * page_size == page_size * n && (n - 1) * page_size == page_size * n - page_size) by (nonlinear_arith);
}

/// The file may grow by `count` pages if page ids suffice and, where it has a limit, it stays within it
/// with one page to spare.
pub proof fn lemma_may_grow(page_size: int, max_size: int, hwm: Pgid, count: int)
    requires
        page_size > 0,
        count >= 0,
        max_size >= 0,
    ensures
        !too_big(page_size, max_size, hwm, count) <==> hwm + count <= u64::MAX && (max_size == 0 || hwm * page_size
            + count * page_size + page_size <= max_size),
{
    assert((hwm + count + 1) * page_size == hwm * page_size + count * page_size + page_size) by (nonlinear_arith);
}

} // verus!
