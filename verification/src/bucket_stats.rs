//! Counting the pages and keys of a bucket.
use vstd::prelude::*;
use crate::bucket::BucketId;
use crate::bytes::{le32, read_u32};
use crate::inode::{branch_ok, branch_pgid, decodable, decode, elem_off, elem_ok, leaf_at, leaf_ok, InodeV};
use crate::node::{inline_ok, inline_page, Base, Pages};
use crate::page::{header_of, BUCKET_LEAF_FLAG, InBucket, PageHeader, Pgid};
use crate::stats::BucketStats;
use crate::tree::{is_bucket, Tree};
use crate::tx::TxInner;

verus! {

/// The numbers of a bucket, of whatever size.
#[verifier::ext_equal]
pub struct Tally {
    pub branch_page_n: int,
    pub branch_overflow_n: int,
    pub leaf_page_n: int,
    pub leaf_overflow_n: int,
    pub key_n: int,
    pub depth: int,
    pub branch_alloc: int,
    pub branch_inuse: int,
    pub leaf_alloc: int,
    pub leaf_inuse: int,
    pub bucket_n: int,
    pub inline_bucket_n: int,
    pub inline_bucket_inuse: int,
}

/// The numbers in a record.
pub open spec fn tally_of(s: BucketStats) -> Tally {
    Tally {
        branch_page_n: s.branch_page_n as int,
        branch_overflow_n: s.branch_overflow_n as int,
        leaf_page_n: s.leaf_page_n as int,
        leaf_overflow_n: s.leaf_overflow_n as int,
        key_n: s.key_n as int,
        depth: s.depth as int,
        branch_alloc: s.branch_alloc as int,
        branch_inuse: s.branch_inuse as int,
        leaf_alloc: s.leaf_alloc as int,
        leaf_inuse: s.leaf_inuse as int,
        bucket_n: s.bucket_n as int,
        inline_bucket_n: s.inline_bucket_n as int,
        inline_bucket_inuse: s.inline_bucket_inuse as int,
    }
}

impl Tally {
    /// All numbers at zero.
    pub open spec fn zero() -> Tally {
        tally_of(BucketStats::zero())
    }

    /// The numbers of two parts together. Their depth is that of the deeper one.
    pub open spec fn plus(self, other: Tally) -> Tally {
        Tally {
            branch_page_n: self.branch_page_n + other.branch_page_n,
            branch_overflow_n: self.branch_overflow_n + other.branch_overflow_n,
            leaf_page_n: self.leaf_page_n + other.leaf_page_n,
            leaf_overflow_n: self.leaf_overflow_n + other.leaf_overflow_n,
            key_n: self.key_n + other.key_n,
            depth: if other.depth > self.depth { other.depth } else { self.depth },
            branch_alloc: self.branch_alloc + other.branch_alloc,
            branch_inuse: self.branch_inuse + other.branch_inuse,
            leaf_alloc: self.leaf_alloc + other.leaf_alloc,
            leaf_inuse: self.leaf_inuse + other.leaf_inuse,
            bucket_n: self.bucket_n + other.bucket_n,
            inline_bucket_n: self.inline_bucket_n + other.inline_bucket_n,
            inline_bucket_inuse: self.inline_bucket_inuse + other.inline_bucket_inuse,
        }
    }

    /// No number is larger than in `other`.
    pub open spec fn within(self, other: Tally) -> bool {
        &&& self.branch_page_n <= other.branch_page_n
        &&& self.branch_overflow_n <= other.branch_overflow_n
        &&& self.leaf_page_n <= other.leaf_page_n
        &&& self.leaf_overflow_n <= other.leaf_overflow_n
        &&& self.key_n <= other.key_n
        &&& self.depth <= other.depth
        &&& self.branch_alloc <= other.branch_alloc
        &&& self.branch_inuse <= other.branch_inuse
        &&& self.leaf_alloc <= other.leaf_alloc
        &&& self.leaf_inuse <= other.leaf_inuse
        &&& self.bucket_n <= other.bucket_n
        &&& self.inline_bucket_n <= other.inline_bucket_n
        &&& self.inline_bucket_inuse <= other.inline_bucket_inuse
    }

    /// No number is negative.
    pub open spec fn counts(self) -> bool {
        Tally::zero().within(self)
    }

    /// All numbers can be represented.
    pub open spec fn fits(self) -> bool {
        &&& self.branch_page_n + self.branch_overflow_n <= usize::MAX
        &&& self.branch_page_n <= usize::MAX
        &&& self.branch_overflow_n <= usize::MAX
        &&& self.leaf_page_n + self.leaf_overflow_n <= usize::MAX
        &&& self.leaf_page_n <= usize::MAX
        &&& self.leaf_overflow_n <= usize::MAX
        &&& self.key_n <= usize::MAX
        &&& self.depth <= usize::MAX
        &&& self.branch_alloc <= usize::MAX
        &&& self.branch_inuse <= usize::MAX
        &&& self.leaf_alloc <= usize::MAX
        &&& self.leaf_inuse <= usize::MAX
        &&& self.bucket_n <= usize::MAX
        &&& self.inline_bucket_n <= usize::MAX
        &&& self.inline_bucket_inuse <= usize::MAX
    }
}

// ---------------------------------------------------------------------------------------------
// What is counted.

/// How many bytes of a leaf page are used: up to the end of its last element.
pub open spec fn leaf_used(page: Seq<u8>) -> int {
    let n = header_of(page).count as int;
    let off = elem_off(n - 1);
    if n == 0 {
        16
    } else {
        off + le32(page, off + 4) + le32(page, off + 8) + le32(page, off + 12)
    }
}

/// The same of a branch page.
pub open spec fn branch_used(page: Seq<u8>) -> int {
    let n = header_of(page).count as int;
    let off = elem_off(n - 1);
    if n == 0 {
        16
    } else {
        off + le32(page, off) + le32(page, off + 4)
    }
}

/// The numbers of a leaf page at a depth.
pub open spec fn leaf_tally(page: Seq<u8>, depth: int) -> Tally {
    Tally {
        key_n: header_of(page).count as int,
        leaf_page_n: 1,
        leaf_inuse: leaf_used(page),
        leaf_overflow_n: header_of(page).overflow as int,
        depth: depth + 1,
        ..Tally::zero()
    }
}

/// The numbers of a branch page at a depth.
pub open spec fn branch_tally(page: Seq<u8>, depth: int) -> Tally {
    Tally {
        branch_page_n: 1,
        branch_inuse: branch_used(page),
        branch_overflow_n: header_of(page).overflow as int,
        depth: depth + 1,
        ..Tally::zero()
    }
}

/// The numbers of the page of an inline bucket.
pub open spec fn inline_tally(page: Seq<u8>) -> Tally {
    Tally {
        key_n: header_of(page).count as int,
        inline_bucket_inuse: leaf_used(page),
        depth: 1,
        ..Tally::zero()
    }
}

/// The numbers of the pages of one bucket, where its root is at a depth.
pub open spec fn own_tally(base: Base, t: Tree, depth: int) -> Tally
    decreases t,
{
    match t {
        Tree::Leaf { .. } => leaf_tally(base.store[t.pgid()], depth),
        Tree::Branch { kids, .. } => branch_tally(base.store[t.pgid()], depth).plus(
            kids_tally(base, kids, depth + 1),
        ),
    }
}

/// The same of a list of children.
pub open spec fn kids_tally(base: Base, kids: Seq<Tree>, depth: int) -> Tally
    decreases kids,
{
    if kids.len() == 0 {
        Tally::zero()
    } else {
        kids_tally(base, kids.drop_last(), depth).plus(own_tally(base, kids.last(), depth))
    }
}

/// The numbers of the buckets nested in a tree.
pub open spec fn nested_tally(base: Base, t: Tree) -> Tally
    decreases t, 0nat,
{
    match t {
        Tree::Leaf { items, subs, .. } => subs_tally(base, items, subs),
        Tree::Branch { kids, .. } => nested_kids_tally(base, kids),
    }
}

/// The same of a list of children.
pub open spec fn nested_kids_tally(base: Base, kids: Seq<Tree>) -> Tally
    decreases kids, 0nat,
{
    if kids.len() == 0 {
        Tally::zero()
    } else {
        nested_kids_tally(base, kids.drop_last()).plus(nested_tally(base, kids.last()))
    }
}

/// The same of the elements of a leaf.
pub open spec fn subs_tally(base: Base, items: Seq<InodeV>, subs: Seq<Option<Tree>>) -> Tally
    decreases subs, 0nat,
{
    if subs.len() == 0 {
        Tally::zero()
    } else {
        subs_tally(base, items, subs.drop_last()).plus(
            item_tally(base, items[subs.len() - 1], subs.last()),
        )
    }
}

/// The numbers of the bucket that an element holds, if it holds one.
pub open spec fn item_tally(base: Base, item: InodeV, sub: Option<Tree>) -> Tally
    decreases sub, 0nat,
{
    if is_bucket(item) {
        match sub {
            Some(t) => whole_tally(base.page_size, own_tally(base, t, 0), nested_tally(base, t), false),
            None => whole_tally(base.page_size, inline_tally(inline_page(item.value)), Tally::zero(), true),
        }
    } else {
        Tally::zero()
    }
}

/// The numbers of a bucket, from those of its own pages and those of the buckets nested in it.
pub open spec fn whole_tally(page_size: int, own: Tally, nested: Tally, inlined: bool) -> Tally {
    let sum = own.plus(nested);
    Tally {
        bucket_n: sum.bucket_n + 1,
        inline_bucket_n: sum.inline_bucket_n + if inlined { 1int } else { 0 },
        depth: own.depth + nested.depth,
        branch_alloc: (sum.branch_page_n + sum.branch_overflow_n) * page_size,
        leaf_alloc: (sum.leaf_page_n + sum.leaf_overflow_n) * page_size,
        ..sum
    }
}

/// The numbers of bucket `b` of a transaction, as it is on its pages.
pub open spec fn bucket_tally(tx: TxInner, b: int) -> Tally {
    let bk = tx.buckets@[b];
    let base = tx.base@;
    let root = bk.header.root;
    if root != 0 {
        whole_tally(base.page_size, own_tally(base, base.forest[root], 0), nested_tally(base, base.forest[root]), false)
    } else {
        whole_tally(
            base.page_size,
            match bk.inline_page {
                Some(page) => inline_tally(page@),
                None => Tally::zero(),
            },
            Tally::zero(),
            true,
        )
    }
}

// ---------------------------------------------------------------------------------------------
// Properties.

/// The numbers that belong to the size of the pages are in proportion to the numbers of pages.
spec fn in_proportion(t: Tally, page_size: int) -> bool {
    &&& t.branch_alloc == (t.branch_page_n + t.branch_overflow_n) * page_size
    &&& t.leaf_alloc == (t.leaf_page_n + t.leaf_overflow_n) * page_size
}

proof fn lemma_proportion_zero(ps: int)
    ensures
        in_proportion(Tally::zero(), ps),
{
    assert((0int + 0) * ps == 0) by (nonlinear_arith);
}

proof fn lemma_proportion_plus(a: Tally, b: Tally, ps: int)
    requires
        in_proportion(a, ps),
        in_proportion(b, ps),
    ensures
        in_proportion(a.plus(b), ps),
{
    let s = a.plus(b);
    assert((s.branch_page_n + s.branch_overflow_n) * ps == (a.branch_page_n + a.branch_overflow_n) * ps + (
    b.branch_page_n + b.branch_overflow_n) * ps) by (nonlinear_arith)
        requires
            s.branch_page_n == a.branch_page_n + b.branch_page_n,
            s.branch_overflow_n == a.branch_overflow_n + b.branch_overflow_n,
    ;
    assert((s.leaf_page_n + s.leaf_overflow_n) * ps == (a.leaf_page_n + a.leaf_overflow_n) * ps + (b.leaf_page_n
        + b.leaf_overflow_n) * ps) by (nonlinear_arith)
        requires
            s.leaf_page_n == a.leaf_page_n + b.leaf_page_n,
            s.leaf_overflow_n == a.leaf_overflow_n + b.leaf_overflow_n,
    ;
}

/// The numbers of pages alone say nothing of what is allocated, and none is negative.
proof fn lemma_own(base: Base, t: Tree, depth: int)
    requires
        depth >= 0,
    ensures
        own_tally(base, t, depth).counts(),
        own_tally(base, t, depth).branch_alloc == 0,
        own_tally(base, t, depth).leaf_alloc == 0,
        own_tally(base, t, depth).bucket_n == 0,
        own_tally(base, t, depth).inline_bucket_n == 0,
    decreases t,
{
    if t is Branch {
        lemma_own_kids(base, t->kids, depth + 1);
    }
}

proof fn lemma_own_kids(base: Base, kids: Seq<Tree>, depth: int)
    requires
        depth >= 0,
    ensures
        kids_tally(base, kids, depth).counts(),
        kids_tally(base, kids, depth).branch_alloc == 0,
        kids_tally(base, kids, depth).leaf_alloc == 0,
        kids_tally(base, kids, depth).bucket_n == 0,
        kids_tally(base, kids, depth).inline_bucket_n == 0,
    decreases kids,
{
    if kids.len() > 0 {
        lemma_own_kids(base, kids.drop_last(), depth);
        lemma_own(base, kids.last(), depth);
    }
}

proof fn lemma_nested(base: Base, t: Tree)
    requires
        base.page_size > 0,
    ensures
        nested_tally(base, t).counts(),
        in_proportion(nested_tally(base, t), base.page_size),
    decreases t, 0nat,
{
    match t {
        Tree::Leaf { items, subs, .. } => lemma_subs(base, items, subs),
        Tree::Branch { kids, .. } => lemma_nested_kids(base, kids),
    }
}

proof fn lemma_nested_kids(base: Base, kids: Seq<Tree>)
    requires
        base.page_size > 0,
    ensures
        nested_kids_tally(base, kids).counts(),
        in_proportion(nested_kids_tally(base, kids), base.page_size),
    decreases kids, 0nat,
{
    if kids.len() > 0 {
        lemma_nested_kids(base, kids.drop_last());
        lemma_nested(base, kids.last());
        lemma_proportion_plus(
            nested_kids_tally(base, kids.drop_last()),
            nested_tally(base, kids.last()),
            base.page_size,
        );
    }
}

proof fn lemma_subs(base: Base, items: Seq<InodeV>, subs: Seq<Option<Tree>>)
    requires
        base.page_size > 0,
    ensures
        subs_tally(base, items, subs).counts(),
        in_proportion(subs_tally(base, items, subs), base.page_size),
    decreases subs, 0nat,
{
    if subs.len() > 0 {
        lemma_subs(base, items, subs.drop_last());
        lemma_item(base, items[subs.len() - 1], subs.last());
        lemma_proportion_plus(
            subs_tally(base, items, subs.drop_last()),
            item_tally(base, items[subs.len() - 1], subs.last()),
            base.page_size,
        );
    }
}

proof fn lemma_item(base: Base, item: InodeV, sub: Option<Tree>)
    requires
        base.page_size > 0,
    ensures
        item_tally(base, item, sub).counts(),
        in_proportion(item_tally(base, item, sub), base.page_size),
    decreases sub, 0nat,
{
    lemma_proportion_zero(base.page_size);
    if is_bucket(item) {
        match sub {
            Some(t) => {
                lemma_own(base, t, 0);
                lemma_nested(base, t);
                lemma_whole(base.page_size, own_tally(base, t, 0), nested_tally(base, t), false);
            },
            None => {
                lemma_whole(base.page_size, inline_tally(inline_page(item.value)), Tally::zero(), true);
            },
        }
    }
}

/// The numbers of a bucket are at least those of its parts.
proof fn lemma_whole(page_size: int, own: Tally, nested: Tally, inlined: bool)
    requires
        page_size > 0,
        own.counts(),
        own.branch_alloc == 0,
        own.leaf_alloc == 0,
        nested.counts(),
        in_proportion(nested, page_size),
    ensures
        ({
            let w = whole_tally(page_size, own, nested, inlined);
            &&& w.counts()
            &&& in_proportion(w, page_size)
            &&& own.within(w)
            &&& nested.within(w)
        }),
{
    let w = whole_tally(page_size, own, nested, inlined);
    let a = nested.branch_page_n + nested.branch_overflow_n;
    let b = w.branch_page_n + w.branch_overflow_n;
    assert(0 <= a * page_size <= b * page_size) by (nonlinear_arith)
        requires
            0 <= a <= b,
            page_size > 0,
    ;
    let c = nested.leaf_page_n + nested.leaf_overflow_n;
    let d = w.leaf_page_n + w.leaf_overflow_n;
    assert(0 <= c * page_size <= d * page_size) by (nonlinear_arith)
        requires
            0 <= c <= d,
            page_size > 0,
    ;
}

/// The first children have no larger numbers than all.
proof fn lemma_kids_part(base: Base, kids: Seq<Tree>, k: int, depth: int)
    requires
        0 <= k <= kids.len(),
        base.page_size > 0,
        depth >= 0,
    ensures
        kids_tally(base, kids.take(k), depth).within(kids_tally(base, kids, depth)),
        nested_kids_tally(base, kids.take(k)).within(nested_kids_tally(base, kids)),
    decreases kids.len() - k,
{
    if k == kids.len() {
        assert(kids.take(k) =~= kids);
    } else {
        lemma_kids_part(base, kids, k + 1, depth);
        assert(kids.take(k + 1).drop_last() =~= kids.take(k));
        lemma_own(base, kids[k], depth);
        lemma_nested(base, kids[k]);
    }
}

/// The buckets in the first elements have no larger numbers than those in all.
proof fn lemma_subs_part(base: Base, items: Seq<InodeV>, subs: Seq<Option<Tree>>, k: int)
    requires
        0 <= k <= subs.len(),
        base.page_size > 0,
    ensures
        subs_tally(base, items, subs.take(k)).within(subs_tally(base, items, subs)),
    decreases subs.len() - k,
{
    if k == subs.len() {
        assert(subs.take(k) =~= subs);
    } else {
        lemma_subs_part(base, items, subs, k + 1);
        assert(subs.take(k + 1).drop_last() =~= subs.take(k));
        lemma_item(base, items[k], subs[k]);
    }
}

// ---------------------------------------------------------------------------------------------
// Counting.

/// How many bytes of a leaf page are used.
pub fn leaf_inuse(page: &[u8]) -> (n: usize)
    requires
        page@.len() >= 16,
        header_of(page@).count > 0 ==> leaf_ok(page@, header_of(page@).count - 1),
    ensures
        n == leaf_used(page@),
{
    let count: usize = PageHeader::read(page).count as usize;
    if count == 0 {
        return 16;
    }
    let off: usize = 16 + (count - 1) * 16;
    assert(page@.len() == page.len());
    let pos: usize = read_u32(page, off + 4) as usize;
    let ksize: usize = read_u32(page, off + 8) as usize;
    let vsize: usize = read_u32(page, off + 12) as usize;
    off + pos + ksize + vsize
}

/// How many bytes of a branch page are used.
pub fn branch_inuse(page: &[u8]) -> (n: usize)
    requires
        page@.len() >= 16,
        header_of(page@).count > 0 ==> branch_ok(page@, header_of(page@).count - 1),
    ensures
        n == branch_used(page@),
{
    let count: usize = PageHeader::read(page).count as usize;
    if count == 0 {
        return 16;
    }
    let off: usize = 16 + (count - 1) * 16;
    assert(page@.len() == page.len());
    let pos: usize = read_u32(page, off) as usize;
    let ksize: usize = read_u32(page, off + 4) as usize;
    off + pos + ksize
}

/// Puts the numbers of a bucket and of those nested in it together.
fn finish(s: BucketStats, sub: &BucketStats, page_size: usize, Ghost(own): Ghost<Tally>, Ghost(inlined): Ghost<bool>) -> (w:
    BucketStats)
    requires
        page_size > 0,
        own.counts(),
        own.branch_alloc == 0,
        own.leaf_alloc == 0,
        in_proportion(tally_of(*sub), page_size as int),
        tally_of(s) == (Tally {
            bucket_n: own.bucket_n + 1,
            inline_bucket_n: own.inline_bucket_n + if inlined { 1int } else { 0 },
            ..own
        }),
        whole_tally(page_size as int, own, tally_of(*sub), inlined).fits(),
    ensures
        tally_of(w) == whole_tally(page_size as int, own, tally_of(*sub), inlined),
{
    proof {
        lemma_whole(page_size as int, own, tally_of(*sub), inlined);
    }
    let mut w: BucketStats = s;
    w.depth = w.depth + sub.depth;
    w.add(sub);
    w.branch_alloc = (w.branch_page_n + w.branch_overflow_n) * page_size;
    w.leaf_alloc = (w.leaf_page_n + w.leaf_overflow_n) * page_size;
    w
}

/// Counts the page of an inline bucket.
fn walk_inline(page: &[u8], s: &mut BucketStats)
    requires
        page@.len() >= 16,
        header_of(page@).count > 0 ==> leaf_ok(page@, header_of(page@).count - 1),
        tally_of(*old(s)).plus(inline_tally(page@)).fits(),
    ensures
        tally_of(*final(s)) == tally_of(*old(s)).plus(inline_tally(page@)),
{
    let hdr = PageHeader::read(page);
    if 1 > s.depth {
        s.depth = 1;
    }
    s.key_n = s.key_n + hdr.count as usize;
    s.inline_bucket_inuse = s.inline_bucket_inuse + leaf_inuse(page);
}

/// Counts the pages from page `p` on down, and the buckets nested in them.
fn walk_tree(
    pages: &Pages,
    p: Pgid,
    depth: usize,
    s: &mut BucketStats,
    sub: &mut BucketStats,
    Ghost(base): Ghost<Base>,
)
    requires
        base.ok(),
        pages.backs(base),
        forall|q: Pgid| #[trigger] base.forest.contains_key(q) ==> base.old.contains(q),
        base.old.contains(p),
        tally_of(*old(s)).plus(own_tally(base, base.forest[p], depth as int)).fits(),
        tally_of(*old(sub)).plus(nested_tally(base, base.forest[p])).fits(),
    ensures
        tally_of(*final(s)) == tally_of(*old(s)).plus(own_tally(base, base.forest[p], depth as int)),
        tally_of(*final(sub)) == tally_of(*old(sub)).plus(nested_tally(base, base.forest[p])),
    decreases base.forest[p], 0nat,
{
    let ghost t = base.forest[p];
    let ghost s0 = tally_of(*s);
    let ghost sub0 = tally_of(*sub);
    proof {
        assert(base.page_ok(p));
        assert(base.kids_old(p));
        lemma_own(base, t, depth as int);
        lemma_nested(base, t);
        if t is Branch {
            lemma_own_kids(base, t->kids, depth + 1);
        }
    }
    let page: &[u8] = pages.page(p);
    let hdr = PageHeader::read(page);
    if hdr.count > 0 {
        assert(elem_ok(page@, hdr.count - 1));
    }
    if depth + 1 > s.depth {
        s.depth = depth + 1;
    }
    if hdr.is_leaf() {
        s.key_n = s.key_n + hdr.count as usize;
        s.leaf_page_n = s.leaf_page_n + 1;
        s.leaf_inuse = s.leaf_inuse + leaf_inuse(page);
        s.leaf_overflow_n = s.leaf_overflow_n + hdr.overflow as usize;
        assert(tally_of(*s) =~= s0.plus(own_tally(base, t, depth as int)));
        walk_items(pages, page, sub, Ghost(p), Ghost(base));
    } else {
        s.branch_page_n = s.branch_page_n + 1;
        s.branch_inuse = s.branch_inuse + branch_inuse(page);
        s.branch_overflow_n = s.branch_overflow_n + hdr.overflow as usize;
        assert(tally_of(*s) =~= s0.plus(branch_tally(page@, depth as int)));
        assert(tally_of(*s).plus(kids_tally(base, t->kids, depth + 1)) =~= s0.plus(own_tally(base, t, depth as int)));
        assert(depth + 1 <= s0.plus(own_tally(base, t, depth as int)).depth);
        walk_kids(pages, page, depth + 1, s, sub, Ghost(p), Ghost(base));
    }
}

/// Counts the pages below a branch page, and the buckets nested in them.
fn walk_kids(
    pages: &Pages,
    page: &[u8],
    depth: usize,
    s: &mut BucketStats,
    sub: &mut BucketStats,
    Ghost(p): Ghost<Pgid>,
    Ghost(base): Ghost<Base>,
)
    requires
        base.ok(),
        pages.backs(base),
        forall|q: Pgid| #[trigger] base.forest.contains_key(q) ==> base.old.contains(q),
        base.old.contains(p),
        page@ == base.store[p],
        base.forest[p] is Branch,
        tally_of(*old(s)).plus(kids_tally(base, base.forest[p]->kids, depth as int)).fits(),
        tally_of(*old(sub)).plus(nested_kids_tally(base, base.forest[p]->kids)).fits(),
    ensures
        tally_of(*final(s)) == tally_of(*old(s)).plus(kids_tally(base, base.forest[p]->kids, depth as int)),
        tally_of(*final(sub)) == tally_of(*old(sub)).plus(nested_kids_tally(base, base.forest[p]->kids)),
    decreases base.forest[p]->kids, 1nat,
{
    let ghost kids = base.forest[p]->kids;
    let ghost s0 = tally_of(*s);
    let ghost sub0 = tally_of(*sub);
    assert(base.page_ok(p));
    assert(base.kids_old(p));
    let count: usize = PageHeader::read(page).count as usize;
    let mut i: usize = 0;
    assert(kids.take(0) =~= Seq::<Tree>::empty());
    assert(s0.plus(kids_tally(base, kids.take(0), depth as int)) =~= s0);
    assert(sub0.plus(nested_kids_tally(base, kids.take(0))) =~= sub0);
    while i < count
        invariant
            i <= count,
            count == kids.len(),
            kids == base.forest[p]->kids,
            base.forest[p] is Branch,
            base.ok(),
            pages.backs(base),
            forall|q: Pgid| #[trigger] base.forest.contains_key(q) ==> base.old.contains(q),
            base.page_ok(p),
            base.kids_old(p),
            page@ == base.store[p],
            count == header_of(page@).count,
            decodable(page@),
            s0.plus(kids_tally(base, kids, depth as int)).fits(),
            sub0.plus(nested_kids_tally(base, kids)).fits(),
            tally_of(*s) == s0.plus(kids_tally(base, kids.take(i as int), depth as int)),
            tally_of(*sub) == sub0.plus(nested_kids_tally(base, kids.take(i as int))),
        decreases count - i,
    {
        assert(elem_ok(page@, i as int));
        let child: Pgid = branch_pgid(page, i);
        proof {
            assert(decode(page@)[i as int].pgid == child);
            assert(kids[i as int] == base.forest[child]);
            assert(base.old.contains(child));
            assert(decreases_to!(kids => kids[i as int]));
            let next = kids.take(i + 1);
            assert(next.drop_last() =~= kids.take(i as int));
            assert(next.last() == kids[i as int]);
            lemma_kids_part(base, kids, i + 1, depth as int);
            assert(tally_of(*s).plus(own_tally(base, kids[i as int], depth as int)) =~= s0.plus(
                kids_tally(base, next, depth as int),
            ));
            assert(tally_of(*sub).plus(nested_tally(base, kids[i as int])) =~= sub0.plus(nested_kids_tally(base, next)));
        }
        walk_tree(pages, child, depth, s, sub, Ghost(base));
        i = i + 1;
    }
    assert(kids.take(i as int) =~= kids);
}

/// Counts the buckets in the elements of a leaf page.
fn walk_items(pages: &Pages, page: &[u8], sub: &mut BucketStats, Ghost(p): Ghost<Pgid>, Ghost(base): Ghost<Base>)
    requires
        base.ok(),
        pages.backs(base),
        forall|q: Pgid| #[trigger] base.forest.contains_key(q) ==> base.old.contains(q),
        base.old.contains(p),
        page@ == base.store[p],
        base.forest[p] is Leaf,
        tally_of(*old(sub)).plus(subs_tally(base, base.forest[p]->items, base.forest[p]->subs)).fits(),
    ensures
        tally_of(*final(sub)) == tally_of(*old(sub)).plus(
            subs_tally(base, base.forest[p]->items, base.forest[p]->subs),
        ),
    decreases base.forest[p]->subs, 1nat,
{
    let ghost items = base.forest[p]->items;
    let ghost subs = base.forest[p]->subs;
    let ghost sub0 = tally_of(*sub);
    assert(base.page_ok(p));
    let count: usize = PageHeader::read(page).count as usize;
    let mut i: usize = 0;
    assert(subs.take(0) =~= Seq::<Option<Tree>>::empty());
    assert(sub0.plus(subs_tally(base, items, subs.take(0))) =~= sub0);
    while i < count
        invariant
            i <= count,
            count == subs.len(),
            subs == base.forest[p]->subs,
            items == base.forest[p]->items,
            base.forest[p] is Leaf,
            base.ok(),
            pages.backs(base),
            forall|q: Pgid| #[trigger] base.forest.contains_key(q) ==> base.old.contains(q),
            base.page_ok(p),
            page@ == base.store[p],
            count == header_of(page@).count,
            decodable(page@),
            sub0.plus(subs_tally(base, items, subs)).fits(),
            tally_of(*sub) == sub0.plus(subs_tally(base, items, subs.take(i as int))),
        decreases count - i,
    {
        assert(elem_ok(page@, i as int));
        let (flags, _key, value) = leaf_at(page, i);
        let ghost item = items[i as int];
        let ghost one = item_tally(base, item, subs[i as int]);
        proof {
            assert(decode(page@)[i as int] == item);
            assert(base.item_ok(item));
            assert(subs[i as int] == base.sub(item));
            let next = subs.take(i + 1);
            assert(next.drop_last() =~= subs.take(i as int));
            assert(next.last() == subs[i as int]);
            lemma_subs_part(base, items, subs, i + 1);
            lemma_subs(base, items, subs.take(i as int));
            lemma_item(base, item, subs[i as int]);
            assert(tally_of(*sub).plus(one) =~= sub0.plus(subs_tally(base, items, next)));
        }
        if flags & BUCKET_LEAF_FLAG != 0 {
            assert(decreases_to!(subs => subs[i as int]));
            let more: BucketStats = stats_from_bucket_value(pages, value, Ghost(item), Ghost(base));
            sub.add(&more);
            assert(tally_of(*sub) =~= sub0.plus(subs_tally(base, items, subs.take(i + 1))));
        } else {
            assert(tally_of(*sub).plus(one) =~= tally_of(*sub));
        }
        i = i + 1;
    }
    assert(subs.take(i as int) =~= subs);
}

/// Counts the bucket that a value holds.
fn stats_from_bucket_value(pages: &Pages, value: &[u8], Ghost(item): Ghost<InodeV>, Ghost(base): Ghost<Base>) -> (w:
    BucketStats)
    requires
        base.ok(),
        pages.backs(base),
        forall|q: Pgid| #[trigger] base.forest.contains_key(q) ==> base.old.contains(q),
        is_bucket(item),
        base.item_ok(item),
        value@ == item.value,
        item_tally(base, item, base.sub(item)).fits(),
    ensures
        tally_of(w) == item_tally(base, item, base.sub(item)),
    decreases base.sub(item), 1nat,
{
    let root: Pgid = InBucket::read(value).root;
    let mut s: BucketStats = BucketStats::default();
    s.bucket_n = 1;
    let mut sub: BucketStats = BucketStats::default();
    let ghost ps = base.page_size;
    if root == 0 {
        s.inline_bucket_n = 1;
        let ghost own = inline_tally(inline_page(value@));
        proof {
            lemma_proportion_zero(ps);
            lemma_whole(ps, own, Tally::zero(), true);
        }
        let page: &[u8] = vstd::slice::slice_subrange(value, 16, value.len());
        proof {
            assert(page@ =~= inline_page(value@));
            if header_of(page@).count > 0 {
                assert(elem_ok(page@, header_of(page@).count - 1));
            }
        }
        let ghost s0 = tally_of(s);
        assert(s0.plus(own) =~= (Tally { bucket_n: 1, inline_bucket_n: 1, ..own }));
        walk_inline(page, &mut s);
        finish(s, &sub, pages.page_size, Ghost(own), Ghost(true))
    } else {
        let ghost t = base.forest[root];
        let ghost own = own_tally(base, t, 0);
        let ghost nested = nested_tally(base, t);
        proof {
            assert(base.sub(item) == Some(t));
            assert(decreases_to!(base.sub(item) => base.sub(item)->0));
            lemma_own(base, t, 0);
            lemma_nested(base, t);
            lemma_whole(ps, own, nested, false);
            assert(tally_of(s).plus(own) =~= (Tally { bucket_n: 1, ..own }));
            assert(tally_of(sub).plus(nested) =~= nested);
        }
        walk_tree(pages, root, 0, &mut s, &mut sub, Ghost(base));
        finish(s, &sub, pages.page_size, Ghost(own), Ghost(false))
    }
}

/// Counts the pages and the keys of a bucket, and of the buckets nested in it, as they were when the
/// transaction began.
pub fn bucket_stats(tx: &TxInner, b: BucketId) -> (w: BucketStats)
    requires
        tx.good(),
        tx.has(b as int),
        bucket_tally(*tx, b as int).fits(),
    ensures
        tally_of(w) == bucket_tally(*tx, b as int),
{
    let ghost base = tx.base@;
    let ghost ps = base.page_size;
    let root: Pgid = tx.buckets[b].header.root;
    let mut s: BucketStats = BucketStats::default();
    s.bucket_n = 1;
    let mut sub: BucketStats = BucketStats::default();
    if root == 0 {
        s.inline_bucket_n = 1;
        let ghost s0 = tally_of(s);
        proof {
            lemma_proportion_zero(ps);
        }
        match &tx.buckets[b].inline_page {
            Some(page) => {
                let ghost own = inline_tally(page@);
                proof {
                    lemma_whole(ps, own, Tally::zero(), true);
                    assert(inline_ok(page@));
                    if header_of(page@).count > 0 {
                        assert(elem_ok(page@, header_of(page@).count - 1));
                    }
                    assert(s0.plus(own) =~= (Tally { bucket_n: 1, inline_bucket_n: 1, ..own }));
                }
                walk_inline(page.as_slice(), &mut s);
                finish(s, &sub, tx.pages.page_size, Ghost(own), Ghost(true))
            },
            None => finish(s, &sub, tx.pages.page_size, Ghost(Tally::zero()), Ghost(true)),
        }
    } else {
        let ghost t = base.forest[root];
        let ghost own = own_tally(base, t, 0);
        let ghost nested = nested_tally(base, t);
        proof {
            tx.lemma_root(b as int);
            lemma_own(base, t, 0);
            lemma_nested(base, t);
            lemma_whole(ps, own, nested, false);
            assert(tally_of(s).plus(own) =~= (Tally { bucket_n: 1, ..own }));
            assert(tally_of(sub).plus(nested) =~= nested);
        }
        walk_tree(&tx.pages, root, 0, &mut s, &mut sub, tx.base);
        finish(s, &sub, tx.pages.page_size, Ghost(own), Ghost(false))
    }
}

} // verus!
