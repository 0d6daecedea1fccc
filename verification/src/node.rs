//! Nodes: pages of a bucket that a write transaction has in memory to change them.
use vstd::prelude::*;
use crate::edits::{edits, edits_child, Edit};
use crate::inode::{decodable, decode, read_inodes, views, Inode, InodeV};
use crate::order::{group_order, key_equal, key_less, lemma_total, less};
use crate::page::{header_of, BRANCH_PAGE_FLAG, LEAF_PAGE_FLAG, PageHeader, Pgid};
use crate::tree::{alike, at_key, cat, in_order, is_bucket, key_ok, keys_in_order, kid_hi, kid_lo, lemma_alike_same, lemma_alike_uses, lemma_cat_update, lemma_pos, lemma_pos_within, lemma_route, lemma_wf_branch, lemma_wf_items, lemma_wf_one, lemma_with_item, lemma_with_item_within, lemma_without_key, pos, root_of, routes, with_item, without_key, Key, Tree};

verus! {

/// The pages of a database, as bytes and as the trees that they hold.
pub struct Base {
    pub page_size: int,
    pub store: Map<Pgid, Seq<u8>>,
    pub forest: Map<Pgid, Tree>,
    /// The pages that were there when the transaction began.
    pub old: Set<Pgid>,
    /// The page of the freelist then, or zero, and the pages that it overflows into.
    pub list_pgid: Pgid,
    pub list_over: u32,
    /// The first page behind the last one then.
    pub limit: Pgid,
}

/// The page of an inline bucket, which follows the header in the value.
pub open spec fn inline_page(value: Seq<u8>) -> Seq<u8> {
    value.skip(16)
}

/// The tree of an inline page.
pub open spec fn inline_tree(page: Seq<u8>) -> Tree {
    Tree::Leaf {
        pgid: 0,
        over: header_of(page).overflow,
        items: decode(page),
        subs: Seq::new(decode(page).len(), |i: int| None::<Tree>),
    }
}

/// A page that an inline bucket can have: a leaf without nested buckets.
pub open spec fn inline_ok(page: Seq<u8>) -> bool {
    &&& page.len() >= 16
    &&& header_of(page).flags == LEAF_PAGE_FLAG
    &&& decodable(page)
    &&& inline_tree(page).wf(None, None, true)
    &&& forall|i: int| 0 <= i < decode(page).len() ==> !is_bucket(#[trigger] decode(page)[i])
}

impl Base {
    /// The root of the bucket that a leaf element holds, where it has pages of its own.
    pub open spec fn sub(self, item: InodeV) -> Option<Tree> {
        if is_bucket(item) && root_of(item) != 0 {
            Some(self.forest[root_of(item)])
        } else {
            None
        }
    }

    /// The same for a list of elements.
    pub open spec fn subs(self, items: Seq<InodeV>) -> Seq<Option<Tree>> {
        Seq::new(items.len(), |i: int| self.sub(items[i]))
    }

    /// A nested bucket is inline, or its root page holds a well-formed tree.
    pub open spec fn item_ok(self, item: InodeV) -> bool {
        is_bucket(item) ==> {
            &&& item.value.len() >= 16
            &&& root_of(item) == 0 ==> inline_ok(inline_page(item.value))
            &&& root_of(item) != 0 ==> {
                &&& self.forest.contains_key(root_of(item))
                &&& self.forest[root_of(item)].wf(None, None, true)
            }
        }
    }

    /// Page `p` holds the tree that it is said to hold.
    pub open spec fn page_ok(self, p: Pgid) -> bool {
        let t = self.forest[p];
        let page = self.store[p];
        &&& p > 1
        &&& t.pgid() == p
        &&& p + t.over() < u64::MAX
        &&& self.store.contains_key(p)
        &&& page.len() == (t.over() + 1) * self.page_size
        &&& page.len() >= 16
        &&& header_of(page).id == p
        &&& header_of(page).overflow == t.over()
        &&& decodable(page)
        &&& match t {
            Tree::Leaf { items, subs, .. } => {
                &&& header_of(page).flags == LEAF_PAGE_FLAG
                &&& decode(page) == items
                &&& subs == self.subs(items)
                &&& forall|i: int| 0 <= i < items.len() ==> self.item_ok(#[trigger] items[i])
            },
            Tree::Branch { keys, kids, .. } => {
                &&& header_of(page).flags == BRANCH_PAGE_FLAG
                &&& keys.len() == decode(page).len()
                &&& kids.len() == keys.len()
                &&& forall|i: int| #![trigger keys[i]] 0 <= i < keys.len() ==> keys[i] == decode(page)[i].key
                &&& forall|i: int| #![trigger kids[i]]
                    0 <= i < kids.len() ==> {
                        &&& self.forest.contains_key(decode(page)[i].pgid)
                        &&& kids[i] == self.forest[decode(page)[i].pgid]
                        &&& kids[i].first_key() == Some(keys[i])
                    }
            },
        }
    }

    /// Every page holds the tree that it is said to hold.
    pub open spec fn ok(self) -> bool {
        &&& self.page_size > 0
        &&& forall|p: Pgid| #[trigger] self.forest.contains_key(p) ==> self.page_ok(p)
        &&& forall|p: Pgid| #[trigger] self.old.contains(p) ==> self.forest.contains_key(p) && self.kids_old(p)
        &&& forall|p: Pgid| #[trigger] self.old.contains(p) ==> p + self.forest[p].over() < self.limit
        &&& self.list_pgid != 0 ==> {
            &&& self.list_pgid > 1
            &&& self.list_pgid + self.list_over < self.limit
            &&& !self.forest.contains_key(self.list_pgid)
        }
    }

    /// Page `p` was in use when the transaction began.
    pub open spec fn there(self, p: Pgid) -> bool {
        self.old.contains(p) || self.list_pgid != 0 && p == self.list_pgid
    }

    /// The number of pages that a page that was in use overflows into.
    pub open spec fn over_of(self, p: Pgid) -> u32 {
        if self.old.contains(p) {
            self.forest[p].over()
        } else {
            self.list_over
        }
    }

    /// The children of page `p` were there when the transaction began.
    pub open spec fn kids_old(self, p: Pgid) -> bool {
        self.forest[p] matches Tree::Branch { kids, .. } ==> forall|i: int|
            0 <= i < kids.len() ==> self.old.contains((#[trigger] kids[i]).pgid())
    }
}

/// The pages of a database in memory.
pub struct Pages<'a> {
    pub image: &'a [u8],
    pub page_size: usize,
}

impl<'a> Pages<'a> {
    /// Page `p` with its overflow lies inside the image.
    pub open spec fn has(&self, p: Pgid) -> bool {
        let start = p * self.page_size;
        &&& start + 16 <= self.image@.len()
        &&& start + (header_of(self.image@.skip(start)).overflow + 1) * self.page_size <= self.image@.len()
    }

    /// The bytes of page `p` with its overflow.
    pub open spec fn bytes(&self, p: Pgid) -> Seq<u8> {
        let start = p * self.page_size;
        self.image@.subrange(
            start,
            start + (header_of(self.image@.skip(start)).overflow + 1) * self.page_size,
        )
    }

    /// The image holds the pages that were there when the transaction began.
    pub open spec fn backs(&self, base: Base) -> bool {
        &&& self.page_size > 0
        &&& self.page_size == base.page_size
        &&& forall|p: Pgid| #[trigger] base.old.contains(p) ==> self.has(p) && self.bytes(p) == base.store[p]
    }

    /// Whether page `p` with its overflow lies inside the image.
    pub fn holds(&self, p: Pgid) -> (r: bool)
        requires
            self.page_size > 0,
        ensures
            r == self.has(p),
    {
        let image: &'a [u8] = self.image;
        let len: u128 = image.len() as u128;
        proof {
            assert(p * self.page_size <= 0xFFFF_FFFF_FFFF_FFFF * 0xFFFF_FFFF_FFFF_FFFF) by (nonlinear_arith)
                requires
                    0 <= p <= 0xFFFF_FFFF_FFFF_FFFF,
                    0 <= self.page_size <= 0xFFFF_FFFF_FFFF_FFFF,
            ;
        }
        let start: u128 = p as u128 * self.page_size as u128;
        if start > len || len - start < 16 {
            return false;
        }
        let at: usize = start as usize;
        let hdr = PageHeader::read(&image[at..image.len()]);
        assert(image@.subrange(at as int, image@.len() as int) =~= image@.skip(at as int));
        proof {
            let n = hdr.overflow + 1;
            assert(n * self.page_size <= 0x1_0000_0000 * 0xFFFF_FFFF_FFFF_FFFF) by (nonlinear_arith)
                requires
                    0 <= n <= 0x1_0000_0000,
                    0 <= self.page_size <= 0xFFFF_FFFF_FFFF_FFFF,
            ;
        }
        let size: u128 = (hdr.overflow as u128 + 1) * self.page_size as u128;
        size <= len - start
    }

    /// Page `p` with its overflow.
    pub fn page(&self, p: Pgid) -> (page: &'a [u8])
        requires
            self.has(p),
            self.page_size > 0,
        ensures
            page@ == self.bytes(p),
    {
        let image: &'a [u8] = self.image;
        assert(image@.len() == image.len());
        proof {
            assert(p <= p * self.page_size) by (nonlinear_arith)
                requires
                    self.page_size > 0,
                    p >= 0,
            ;
        }
        let start: usize = p as usize * self.page_size;
        let hdr = PageHeader::read(&image[start..image.len()]);
        assert(image@.subrange(start as int, image@.len() as int) =~= image@.skip(start as int));
        let n: usize = (hdr.overflow as usize + 1) * self.page_size;
        &image[start..start + n]
    }
}

/// A page that is in memory to be changed.
pub struct Node {
    pub is_leaf: bool,
    pub unbalanced: bool,
    pub pgid: Pgid,
    pub overflow: u32,
    pub inodes: Vec<Inode>,
    /// For each element of a branch the node of the child, where that is in memory too.
    pub children: Vec<Option<Box<Node>>>,
}

/// The tree of a child that is in memory or on page `pgid`.
pub open spec fn kid_tree(base: Base, child: Option<Box<Node>>, pgid: Pgid) -> Tree
    decreases child,
{
    match child {
        Some(n) => n.tree(base),
        None => base.forest[pgid],
    }
}

impl Node {
    /// What a consistent node is.
    pub proof fn lemma_shape(&self, base: Base)
        requires
            self.ok(base),
        ensures
            self.is_leaf ==> self.children@.len() == 0,
            !self.is_leaf ==> self.children@.len() == self.inodes@.len(),
            self.pgid == 0 || base.old.contains(self.pgid) && base.forest[self.pgid].over() == self.overflow,
    {
        reveal(Node::ok);
    }

    /// Child `i` of a branch is consistent with the pages.
    pub open spec fn child_ok(&self, base: Base, i: int) -> bool {
        &&& base.old.contains(self.inodes@[i].pgid)
        &&& match self.children@[i] {
            Some(c) => c.ok(base) && c.pgid == self.inodes@[i].pgid && c.solid(),
            None => base.forest[self.inodes@[i].pgid].first_key() == Some(self.inodes@[i].key@),
        }
    }

    /// What the child of a consistent branch is.
    pub proof fn lemma_child(&self, base: Base, i: int)
        requires
            self.ok(base),
            !self.is_leaf,
            0 <= i < self.inodes@.len(),
        ensures
            self.children@.len() == self.inodes@.len(),
            self.child_ok(base, i),
            base.old.contains(self.inodes@[i].pgid),
            self.children@[i] is Some ==> {
                &&& self.children@[i]->0.ok(base)
                &&& self.children@[i]->0.solid()
                &&& self.children@[i]->0.pgid == self.inodes@[i].pgid
                &&& self.kids(base)[i] == self.children@[i]->0.tree(base)
            },
            self.children@[i] is None ==> {
                &&& self.kids(base)[i] == base.forest[self.inodes@[i].pgid]
                &&& base.forest[self.inodes@[i].pgid].first_key() == Some(self.inodes@[i].key@)
            },
    {
        reveal(Node::ok);
        assert(base.old.contains(self.inodes@[i].pgid));
        match self.children@[i] {
            Some(c) => {},
            None => {},
        }
    }

    /// The keys of a branch.
    pub open spec fn keys(&self) -> Seq<Key> {
        Seq::new(self.inodes@.len(), |i: int| self.inodes@[i].key@)
    }

    /// The trees of the children of a branch.
    pub open spec fn kids(&self, base: Base) -> Seq<Tree>
        decreases self, 0int,
    {
        Seq::new(
            self.inodes@.len(),
            |i: int|
                if 0 <= i < self.children@.len() {
                    kid_tree(base, self.children@[i], self.inodes@[i].pgid)
                } else {
                    arbitrary()
                },
        )
    }

    /// What the node and everything below it holds.
    pub open spec fn tree(&self, base: Base) -> Tree
        decreases self, 1int,
    {
        if self.is_leaf {
            Tree::Leaf {
                pgid: self.pgid,
                over: self.overflow,
                items: views(self.inodes@),
                subs: base.subs(views(self.inodes@)),
            }
        } else {
            Tree::Branch { pgid: self.pgid, over: self.overflow, keys: self.keys(), kids: self.kids(base) }
        }
    }

    /// How many nodes from here on down are to be rebalanced.
    pub open spec fn flagged(&self) -> nat
        decreases self,
    {
        (if self.unbalanced { 1nat } else { 0nat }) + flagged_in(self.children@)
    }

    /// Without children in memory there is nothing to be rebalanced but the node itself.
    pub proof fn lemma_no_flags(&self)
        requires
            forall|j: int| 0 <= j < self.children@.len() ==> #[trigger] self.children@[j] is None,
        ensures
            self.flagged() == (if self.unbalanced { 1nat } else { 0nat }),
    {
        lemma_none_flagged(self.children@);
    }

    /// A leaf that has lost its last element is to be rebalanced.
    pub open spec fn solid(&self) -> bool {
        self.is_leaf && self.inodes@.len() == 0 ==> self.unbalanced
    }

    /// The node is consistent with the pages.
    #[verifier::opaque]
    pub open spec fn ok(&self, base: Base) -> bool
        decreases self,
    {
        &&& self.pgid == 0 || base.old.contains(self.pgid) && base.forest[self.pgid].over() == self.overflow
        &&& self.is_leaf ==> {
            &&& self.children@.len() == 0
            &&& forall|i: int| 0 <= i < self.inodes@.len() ==> base.item_ok((#[trigger] self.inodes@[i])@)
        }
        &&& !self.is_leaf ==> {
            &&& self.children@.len() == self.inodes@.len()
            &&& forall|i: int|
                0 <= i < self.inodes@.len() ==> (#[trigger] self.inodes@[i]).flags == 0 && self.inodes@[i].value@.len()
                    == 0 && base.old.contains(self.inodes@[i].pgid)
            &&& forall|i: int|
                0 <= i < self.children@.len() ==> match #[trigger] self.children@[i] {
                    Some(c) => c.ok(base) && c.pgid == self.inodes@[i].pgid && c.solid(),
                    None => base.forest[self.inodes@[i].pgid].first_key() == Some(self.inodes@[i].key@),
                }
        }
    }
}

/// How many of the nodes in a list of children, and below them, are to be rebalanced.
pub open spec fn flagged_in(children: Seq<Option<Box<Node>>>) -> nat
    decreases children,
{
    if children.len() == 0 {
        0
    } else {
        flagged_in(children.drop_last()) + child_flags(children.last())
    }
}

/// How many nodes from a child on down are to be rebalanced.
pub open spec fn child_flags(child: Option<Box<Node>>) -> nat
    decreases child,
{
    match child {
        Some(c) => c.flagged(),
        None => 0,
    }
}

proof fn lemma_none_flagged(children: Seq<Option<Box<Node>>>)
    requires
        forall|j: int| 0 <= j < children.len() ==> #[trigger] children[j] is None,
    ensures
        flagged_in(children) == 0,
    decreases children.len(),
{
    if children.len() > 0 {
        assert forall|j: int| 0 <= j < children.len() - 1 implies #[trigger] children.drop_last()[j] is None by {
            assert(children[j] is None);
        }
        lemma_none_flagged(children.drop_last());
        assert(children[children.len() - 1] is None);
        assert(child_flags(children.last()) == 0);
    }
}

/// The place of `key` among the keys of `inodes`: behind all smaller ones.
pub fn position(inodes: &[Inode], key: &[u8]) -> (r: usize)
    requires
        forall|i: int, j: int|
            0 <= i < j < inodes@.len() ==> less((#[trigger] inodes@[i]).key@, (#[trigger] inodes@[j]).key@),
    ensures
        r <= inodes@.len(),
        forall|j: int| 0 <= j < r ==> less((#[trigger] inodes@[j]).key@, key@),
        forall|j: int| r <= j < inodes@.len() ==> !less((#[trigger] inodes@[j]).key@, key@),
{
    broadcast use group_order;

    let mut lo: usize = 0;
    let mut hi: usize = inodes.len();
    while lo < hi
        invariant
            lo <= hi <= inodes@.len(),
            forall|i: int, j: int|
                0 <= i < j < inodes@.len() ==> less((#[trigger] inodes@[i]).key@, (#[trigger] inodes@[j]).key@),
            forall|j: int| 0 <= j < lo ==> less((#[trigger] inodes@[j]).key@, key@),
            forall|j: int| hi <= j < inodes@.len() ==> !less((#[trigger] inodes@[j]).key@, key@),
        decreases hi - lo,
    {
        broadcast use group_order;

        let mid: usize = lo + (hi - lo) / 2;
        if key_less(inodes[mid].key.as_slice(), key) {
            assert forall|j: int| 0 <= j < mid + 1 implies less((#[trigger] inodes@[j]).key@, key@) by {
                if j < mid {
                    assert(less(inodes@[j].key@, inodes@[mid as int].key@));
                }
            }
            lo = mid + 1;
        } else {
            assert forall|j: int| mid <= j < inodes@.len() implies !less((#[trigger] inodes@[j]).key@, key@) by {
                if j > mid {
                    assert(less(inodes@[mid as int].key@, inodes@[j].key@));
                }
            }
            hi = mid;
        }
    }
    lo
}

/// The child of a branch that `key` belongs to.
pub fn route(inodes: &[Inode], key: &[u8]) -> (i: usize)
    requires
        inodes@.len() > 0,
        forall|i: int, j: int|
            0 <= i < j < inodes@.len() ==> less((#[trigger] inodes@[i]).key@, (#[trigger] inodes@[j]).key@),
    ensures
        routes(Seq::new(inodes@.len(), |j: int| inodes@[j].key@), key@, i as int),
{
    broadcast use group_order;

    let ghost keys = Seq::new(inodes@.len(), |j: int| inodes@[j].key@);
    let mut index: usize = position(inodes, key);
    let exact: bool = index < inodes.len() && key_equal(inodes[index].key.as_slice(), key);
    if !exact && index > 0 {
        index = index - 1;
    }
    proof {
        assert(index < inodes@.len());
        assert(keys[index as int] == inodes@[index as int].key@);
        if index + 1 < inodes@.len() {
            assert(keys[index + 1] == inodes@[index + 1].key@);
            lemma_total(inodes@[index + 1].key@, key@);
            assert(less(inodes@[index as int].key@, inodes@[index + 1].key@));
        }
    }
    index
}

/// Node `n` is what is read from page `pgid`.
pub open spec fn fresh_node(base: Base, pgid: Pgid, n: Node) -> bool {
    &&& n.is_leaf == base.forest[pgid] is Leaf
    &&& !n.unbalanced
    &&& n.pgid == pgid
    &&& n.overflow == base.forest[pgid].over()
    &&& views(n.inodes@) == decode(base.store[pgid])
    &&& n.children@.len() == (if n.is_leaf { 0 } else { n.inodes@.len() })
    &&& forall|i: int| 0 <= i < n.children@.len() ==> #[trigger] n.children@[i] is None
}

/// The node of a page.
pub fn load(pages: &Pages, pgid: Pgid, Ghost(base): Ghost<Base>) -> (n: Node)
    requires
        base.ok(),
        pages.backs(base),
        base.old.contains(pgid),
    ensures
        n.ok(base),
        n.tree(base) == base.forest[pgid],
        !n.unbalanced,
        n.pgid == pgid,
        n.flagged() == 0,
        base.forest[pgid].first_key() is Some ==> n.solid(),
        fresh_node(base, pgid, n),
{
    let page: &[u8] = pages.page(pgid);
    let hdr = PageHeader::read(page);
    let inodes: Vec<Inode> = read_inodes(page);
    let ghost t = base.forest[pgid];
    assert(base.page_ok(pgid));
    let is_leaf: bool = hdr.is_leaf();
    let mut children: Vec<Option<Box<Node>>> = Vec::new();
    if !is_leaf {
        let mut i: usize = 0;
        while i < inodes.len()
            invariant
                i <= inodes@.len(),
                children@.len() == i,
                forall|j: int| 0 <= j < i ==> #[trigger] children@[j] is None,
            decreases inodes@.len() - i,
        {
            children.push(None);
            i = i + 1;
        }
    }
    let n = Node { is_leaf, unbalanced: false, pgid, overflow: hdr.overflow, inodes, children };
    proof {
        lemma_loaded(n, base, t);
        n.lemma_no_flags();
    }
    n
}

/// A node without children in memory holds the tree of the page that it was read from.
proof fn lemma_loaded(n: Node, base: Base, t: Tree)
    requires
        base.ok(),
        base.old.contains(n.pgid),
        t == base.forest[n.pgid],
        n.overflow == t.over(),
        views(n.inodes@) == decode(base.store[n.pgid]),
        n.is_leaf == (header_of(base.store[n.pgid]).flags == LEAF_PAGE_FLAG),
        n.is_leaf ==> n.children@.len() == 0,
        !n.is_leaf ==> n.children@.len() == n.inodes@.len(),
        forall|j: int| 0 <= j < n.children@.len() ==> #[trigger] n.children@[j] is None,
    ensures
        n.ok(base),
        n.tree(base) == t,
{
    reveal(Node::ok);
    assert(base.page_ok(n.pgid));
    assert(base.kids_old(n.pgid));
    let page = base.store[n.pgid];
    assert forall|i: int| 0 <= i < n.inodes@.len() implies (#[trigger] n.inodes@[i])@ == decode(page)[i] by {
        assert(views(n.inodes@)[i] == n.inodes@[i]@);
    }
    match t {
        Tree::Leaf { items, .. } => {
            assert forall|i: int| 0 <= i < n.inodes@.len() implies base.item_ok((#[trigger] n.inodes@[i])@) by {
                assert(base.item_ok(items[i]));
            }
        },
        Tree::Branch { keys, kids, .. } => {
            assert(n.keys() =~= keys);
            assert forall|i: int| 0 <= i < n.inodes@.len() implies (#[trigger] n.inodes@[i]).flags == 0
                && n.inodes@[i].value@.len() == 0 && base.old.contains(n.inodes@[i].pgid) by {
                assert(n.inodes@[i]@ == decode(page)[i]);
                assert(kids[i] == base.forest[decode(page)[i].pgid]);
                assert(base.page_ok(decode(page)[i].pgid));
                assert(base.old.contains(kids[i].pgid()));
            }
            assert forall|i: int| 0 <= i < n.children@.len() implies match #[trigger] n.children@[i] {
                Some(x) => x.ok(base) && x.pgid == n.inodes@[i].pgid && x.solid(),
                None => base.forest[n.inodes@[i].pgid].first_key() == Some(n.inodes@[i].key@),
            } by {
                assert(n.inodes@[i]@ == decode(page)[i]);
                assert(kids[i] == base.forest[decode(page)[i].pgid]);
                assert(keys[i] == decode(page)[i].key);
            }
            assert forall|i: int| 0 <= i < kids.len() implies n.kids(base)[i] == kids[i] by {
                assert(n.inodes@[i]@ == decode(page)[i]);
                assert(n.children@[i] is None);
            }
            assert(n.kids(base) =~= kids);
        },
    }
}

/// What happens to a branch when child `i` is replaced by one in memory.
pub proof fn lemma_replaced(n: Node, m: Node, base: Base, i: int, c: Node)
    requires
        n.ok(base),
        !n.is_leaf,
        0 <= i < n.inodes@.len(),
        m.is_leaf == n.is_leaf,
        m.pgid == n.pgid,
        m.overflow == n.overflow,
        m.inodes@ == n.inodes@,
        m.children@ == n.children@.update(i, Some(Box::new(c))),
        c.ok(base),
        c.solid(),
        c.pgid == n.inodes@[i].pgid,
    ensures
        m.ok(base),
        m.keys() == n.keys(),
        m.kids(base) == n.kids(base).update(i, c.tree(base)),
{
    reveal(Node::ok);
    assert(m.keys() =~= n.keys());
    assert forall|j: int| 0 <= j < m.inodes@.len() implies m.kids(base)[j] == n.kids(base).update(
        i,
        c.tree(base),
    )[j] by {
        if j != i {
            assert(m.children@[j] == n.children@[j]);
        }
    }
    assert(m.kids(base) =~= n.kids(base).update(i, c.tree(base)));
    assert forall|j: int| 0 <= j < m.children@.len() implies match #[trigger] m.children@[j] {
        Some(x) => x.ok(base) && x.pgid == m.inodes@[j].pgid && x.solid(),
        None => base.forest[m.inodes@[j].pgid].first_key() == Some(m.inodes@[j].key@),
    } by {
        if j != i {
            assert(m.children@[j] == n.children@[j]);
        }
    }
}

/// The tree of a child is well-formed, and so is the branch with that child replaced by a
/// well-formed one on the same page.
proof fn lemma_kid_wf(t: Tree, lo: Option<Key>, hi: Option<Key>, tight: bool, i: int, u: Tree, v: Tree)
    requires
        t.wf(lo, hi, tight),
        t is Branch,
        0 <= i < t->kids.len(),
        v is Branch,
        v.pgid() == t.pgid(),
        v.over() == t.over(),
        v->keys == t->keys,
        v->kids == t->kids.update(i, u),
        u.wf(kid_lo(t->keys, i, lo), kid_hi(t->keys, i, hi), tight),
        alike(t->kids[i], u),
    ensures
        v.wf(lo, hi, tight),
        alike(t, v),
{
    reveal(Tree::wf_from);
    let kids = t->kids;
    assert forall|j: int| 0 <= j < v->kids.len() implies (#[trigger] v->kids[j]).wf_from(
        kid_lo(v->keys, j, lo),
        kid_hi(v->keys, j, hi),
        tight,
        2,
    ) by {
        assert(kids[j].wf(kid_lo(t->keys, j, lo), kid_hi(t->keys, j, hi), tight));
    }
    lemma_alike_uses(kids[i], u);
    assert forall|j: int| 0 <= j < v->kids.len() implies (#[trigger] v->kids[j]).height() == v->kids[0].height() by {
        assert(kids[j].height() == kids[0].height());
        assert(kids[i].height() == kids[0].height());
    }
    assert forall|j: int| #![trigger kids[j]] #![trigger v->kids[j]] 0 <= j < kids.len() implies alike(kids[j], v->kids[j]) by {
        if j != i {
            lemma_alike_same(kids[j]);
        }
    }
}

/// The child of a branch that a key of the branch's range belongs to has the key in its range.
proof fn lemma_kid_range(t: Tree, lo: Option<Key>, hi: Option<Key>, tight: bool, k: Key, i: int)
    requires
        t.wf(lo, hi, tight),
        t is Branch,
        routes(t->keys, k, i),
        key_ok(k, lo, hi),
        tight || at_key(t.items(), k) is Some,
    ensures
        t->kids[i].wf(kid_lo(t->keys, i, lo), kid_hi(t->keys, i, hi), tight),
        key_ok(k, kid_lo(t->keys, i, lo), kid_hi(t->keys, i, hi)),
        at_key(t.items(), k) == at_key(t->kids[i].items(), k),
{
    reveal(Tree::wf_from);
    broadcast use group_order;

    let kids = t->kids;
    assert(kids[i].wf(kid_lo(t->keys, i, lo), kid_hi(t->keys, i, hi), tight));
    lemma_route(t, lo, hi, tight, k, i);
    let a = cat(kids.take(i));
    let m = kids[i].items();
    let b = cat(kids.skip(i + 1));
    lemma_pos_within(a, m, b, k);
    if !tight {
        lemma_wf_items(kids[i], kid_lo(t->keys, i, lo), kid_hi(t->keys, i, hi), tight);
        assert(key_ok(m[pos(m, k)].key, kid_lo(t->keys, i, lo), kid_hi(t->keys, i, hi)));
    }
}

impl Node {
    /// Takes the node of child `i` out of a branch, reading it where it is not in memory yet.
    pub fn take_child(&mut self, i: usize, pages: &Pages, Ghost(base): Ghost<Base>) -> (child: Box<Node>)
        requires
            base.ok(),
            pages.backs(base),
            !old(self).is_leaf,
            i < old(self).inodes@.len(),
            old(self).children@.len() == old(self).inodes@.len(),
            old(self).child_ok(base, i as int),
        ensures
            child.ok(base),
            child.solid(),
            child.tree(base) == old(self).kids(base)[i as int],
            child.pgid == old(self).inodes@[i as int].pgid,
            child.flagged() == child_flags(old(self).children@[i as int]),
            old(self).children@[i as int] is Some ==> child == old(self).children@[i as int]->0,
            old(self).children@[i as int] is None ==> fresh_node(base, old(self).inodes@[i as int].pgid, *child),
            *final(self) == (Node { children: final(self).children, ..*old(self) }),
            final(self).children@ == old(self).children@.update(i as int, None),
    {
        let pgid: Pgid = self.inodes[i].pgid;
        match self.children[i].take() {
            Some(c) => c,
            None => Box::new(load(pages, pgid, Ghost(base))),
        }
    }

    /// The child of a branch that `key` belongs to.
    pub fn route(&self, key: &[u8], Ghost(base): Ghost<Base>) -> (i: usize)
        requires
            !self.is_leaf,
            self.ok(base),
            keys_in_order(self.keys()),
            self.inodes@.len() > 0,
        ensures
            routes(self.keys(), key@, i as int),
            i < self.inodes@.len(),
    {
        proof {
            assert forall|i: int, j: int| 0 <= i < j < self.inodes@.len() implies less(
                (#[trigger] self.inodes@[i]).key@,
                (#[trigger] self.inodes@[j]).key@,
            ) by {
                assert(self.keys()[i] == self.inodes@[i].key@);
                assert(self.keys()[j] == self.inodes@[j].key@);
            }
            assert(self.keys() =~= Seq::new(self.inodes@.len(), |j: int| self.inodes@[j].key@));
        }
        route(self.inodes.as_slice(), key)
    }

    /// The place of `key` among the elements of a leaf.
    pub fn place(&self, key: &[u8]) -> (i: usize)
        requires
            in_order(views(self.inodes@)),
        ensures
            i == pos(views(self.inodes@), key@),
            i <= self.inodes@.len(),
    {
        proof {
            assert forall|i: int, j: int| 0 <= i < j < self.inodes@.len() implies less(
                (#[trigger] self.inodes@[i]).key@,
                (#[trigger] self.inodes@[j]).key@,
            ) by {
                assert(views(self.inodes@)[i].key == self.inodes@[i].key@);
                assert(views(self.inodes@)[j].key == self.inodes@[j].key@);
            }
        }
        let i: usize = position(self.inodes.as_slice(), key);
        proof {
            lemma_position_is_pos(self.inodes@, key@, i as int);
        }
        i
    }

    fn put_leaf(
        &mut self,
        item: Inode,
        Ghost(base): Ghost<Base>,
        Ghost(lo): Ghost<Option<Key>>,
        Ghost(hi): Ghost<Option<Key>>,
        Ghost(tight): Ghost<bool>,
    )
        requires
            old(self).ok(base),
            old(self).is_leaf,
            old(self).tree(base).wf(lo, hi, tight),
            key_ok(item@.key, lo, hi),
            item@.pgid == 0,
            base.item_ok(item@),
        ensures
            final(self).ok(base),
            final(self).tree(base).wf(lo, hi, tight),
            final(self).tree(base).items() == with_item(old(self).tree(base).items(), item@),
            alike(old(self).tree(base), final(self).tree(base)),
            final(self).unbalanced == old(self).unbalanced,
            final(self).is_leaf,
            final(self).flagged() == old(self).flagged(),
            final(self).solid(),
            edits(*old(self), *final(self), base, Edit::Put { item: item@ }),
    {
        let ghost n0 = *self;
        let ghost t0 = self.tree(base);
        proof {
            reveal(Node::ok);
            reveal(Tree::wf_from);
        }
        let index: usize = self.place(item.key.as_slice());
        let exact: bool = index < self.inodes.len() && key_equal(
            self.inodes[index].key.as_slice(),
            item.key.as_slice(),
        );
        let ghost iv = item@;
        if exact {
            self.inodes.set(index, item);
        } else {
            self.inodes.insert(index, item);
        }
        proof {
            assert(views(self.inodes@) =~= with_item(views(n0.inodes@), iv));
            lemma_with_item(views(n0.inodes@), iv);
            assert forall|i: int| 0 <= i < self.inodes@.len() implies key_ok((#[trigger] self.inodes@[i])@.key, lo, hi)
                && self.inodes@[i]@.pgid == 0 && base.item_ok(self.inodes@[i]@) by {
                if i != index {
                    let j = if i < index || exact { i } else { i - 1 };
                    assert(self.inodes@[i] == n0.inodes@[j]);
                    assert(t0.items()[j] == n0.inodes@[j]@);
                    assert(key_ok(t0.items()[j].key, lo, hi));
                }
            }
            lemma_leaf_changed(n0, *self, base, lo, hi, tight);
        }
    }

    /// Puts an element in the leaf that its key belongs to.
    pub fn put(
        &mut self,
        pages: &Pages,
        item: Inode,
        Ghost(base): Ghost<Base>,
        Ghost(lo): Ghost<Option<Key>>,
        Ghost(hi): Ghost<Option<Key>>,
        Ghost(tight): Ghost<bool>,
    )
        requires
            base.ok(),
            pages.backs(base),
            old(self).ok(base),
            old(self).tree(base).wf(lo, hi, tight),
            key_ok(item@.key, lo, hi),
            tight || at_key(old(self).tree(base).items(), item@.key) is Some,
            item@.pgid == 0,
            base.item_ok(item@),
        ensures
            final(self).ok(base),
            final(self).tree(base).wf(lo, hi, tight),
            final(self).tree(base).items() == with_item(old(self).tree(base).items(), item@),
            alike(old(self).tree(base), final(self).tree(base)),
            final(self).unbalanced == old(self).unbalanced,
            final(self).is_leaf == old(self).is_leaf,
            final(self).flagged() == old(self).flagged(),
            final(self).solid(),
            edits(*old(self), *final(self), base, Edit::Put { item: item@ }),
        decreases old(self).tree(base),
    {
        if self.is_leaf {
            self.put_leaf(item, Ghost(base), Ghost(lo), Ghost(hi), Ghost(tight));
            return;
        }
        let ghost n0 = *self;
        let ghost t0 = self.tree(base);
        proof {
            lemma_wf_branch(t0, lo, hi, tight, 2);
            self.lemma_shape(base);
        }
        let i: usize = self.route(item.key.as_slice(), Ghost(base));
        proof {
            lemma_kid_range(t0, lo, hi, tight, item@.key, i as int);
        }
        proof {
            self.lemma_child(base, i as int);
        }
        let mut child: Box<Node> = self.take_child(i, pages, Ghost(base));
        let ghost iv = item@;
        let ghost c0 = *child;
        child.put(
            pages,
            item,
            Ghost(base),
            Ghost(kid_lo(t0->keys, i as int, lo)),
            Ghost(kid_hi(t0->keys, i as int, hi)),
            Ghost(tight),
        );
        let ghost c1 = *child;
        self.children.set(i, Some(child));
        proof {
            assert(self.children@ =~= n0.children@.update(i as int, Some(Box::new(c1))));
            lemma_alike_uses(t0->kids[i as int], c1.tree(base));
            lemma_replaced(n0, *self, base, i as int, c1);
            lemma_kid_wf(t0, lo, hi, tight, i as int, c1.tree(base), self.tree(base));
            lemma_put_kid(t0, lo, hi, tight, i as int, c1.tree(base), iv);
            lemma_flagged_update(n0.children@, i as int, c1);
            assert(edits_child(n0, *self, base, Edit::Put { item: iv }, i as int, c0));
        }
    }

    fn del_leaf(
        &mut self,
        key: &[u8],
        Ghost(base): Ghost<Base>,
        Ghost(lo): Ghost<Option<Key>>,
        Ghost(hi): Ghost<Option<Key>>,
        Ghost(tight): Ghost<bool>,
    )
        requires
            old(self).ok(base),
            old(self).is_leaf,
            old(self).tree(base).wf(lo, hi, tight),
            at_key(old(self).tree(base).items(), key@) is Some,
        ensures
            final(self).ok(base),
            final(self).tree(base).wf(lo, hi, tight),
            final(self).tree(base).items() == without_key(old(self).tree(base).items(), key@),
            alike(old(self).tree(base), final(self).tree(base)),
            final(self).is_leaf,
            final(self).unbalanced,
            edits(*old(self), *final(self), base, Edit::Del { key: key@ }),
    {
        let ghost n0 = *self;
        let ghost t0 = self.tree(base);
        proof {
            reveal(Node::ok);
            reveal(Tree::wf_from);
        }
        let index: usize = self.place(key);
        self.inodes.remove(index);
        self.unbalanced = true;
        proof {
            assert(views(self.inodes@) =~= without_key(views(n0.inodes@), key@));
            lemma_without_key(views(n0.inodes@), key@);
            assert forall|i: int| 0 <= i < self.inodes@.len() implies key_ok((#[trigger] self.inodes@[i])@.key, lo, hi)
                && self.inodes@[i]@.pgid == 0 && base.item_ok(self.inodes@[i]@) by {
                let j = if i < index { i } else { i + 1 };
                assert(self.inodes@[i] == n0.inodes@[j]);
                assert(t0.items()[j] == n0.inodes@[j]@);
                assert(key_ok(t0.items()[j].key, lo, hi));
            }
            lemma_leaf_changed(n0, *self, base, lo, hi, tight);
        }
    }

    /// Takes the element of a key out of the leaf that the key belongs to, and marks the leaf as
    /// to be rebalanced.
    pub fn del(
        &mut self,
        pages: &Pages,
        key: &[u8],
        Ghost(base): Ghost<Base>,
        Ghost(lo): Ghost<Option<Key>>,
        Ghost(hi): Ghost<Option<Key>>,
        Ghost(tight): Ghost<bool>,
    )
        requires
            base.ok(),
            pages.backs(base),
            old(self).ok(base),
            old(self).tree(base).wf(lo, hi, tight),
            at_key(old(self).tree(base).items(), key@) is Some,
        ensures
            final(self).ok(base),
            final(self).tree(base).wf(lo, hi, tight),
            final(self).tree(base).items() == without_key(old(self).tree(base).items(), key@),
            alike(old(self).tree(base), final(self).tree(base)),
            final(self).is_leaf == old(self).is_leaf,
            final(self).unbalanced == (old(self).unbalanced || old(self).is_leaf),
            final(self).solid(),
            edits(*old(self), *final(self), base, Edit::Del { key: key@ }),
        decreases old(self).tree(base),
    {
        if self.is_leaf {
            self.del_leaf(key, Ghost(base), Ghost(lo), Ghost(hi), Ghost(tight));
            return;
        }
        let ghost n0 = *self;
        let ghost t0 = self.tree(base);
        proof {
            lemma_wf_branch(t0, lo, hi, tight, 2);
            self.lemma_shape(base);
        }
        let i: usize = self.route(key, Ghost(base));
        proof {
            lemma_wf_one(t0, lo, hi, tight);
            lemma_wf_items(t0, lo, hi, tight);
            lemma_pos(t0.items(), key@);
            assert(key_ok(t0.items()[pos(t0.items(), key@)].key, lo, hi));
            lemma_kid_range(t0, lo, hi, tight, key@, i as int);
        }
        proof {
            self.lemma_child(base, i as int);
        }
        let mut child: Box<Node> = self.take_child(i, pages, Ghost(base));
        let ghost c0 = *child;
        child.del(
            pages,
            key,
            Ghost(base),
            Ghost(kid_lo(t0->keys, i as int, lo)),
            Ghost(kid_hi(t0->keys, i as int, hi)),
            Ghost(tight),
        );
        let ghost c1 = *child;
        self.children.set(i, Some(child));
        proof {
            assert(self.children@ =~= n0.children@.update(i as int, Some(Box::new(c1))));
            lemma_alike_uses(t0->kids[i as int], c1.tree(base));
            lemma_replaced(n0, *self, base, i as int, c1);
            lemma_kid_wf(t0, lo, hi, tight, i as int, c1.tree(base), self.tree(base));
            lemma_del_kid(t0, lo, hi, tight, i as int, c1.tree(base), key@);
            assert(edits_child(n0, *self, base, Edit::Del { key: key@ }, i as int, c0));
        }
    }
}

/// An element put into the child that it belongs to is put into the branch.
proof fn lemma_put_kid(t: Tree, lo: Option<Key>, hi: Option<Key>, tight: bool, i: int, u: Tree, item: InodeV)
    requires
        t.wf(lo, hi, tight),
        t is Branch,
        routes(t->keys, item.key, i),
        u.items() == with_item(t->kids[i].items(), item),
    ensures
        cat(t->kids.update(i, u)) == with_item(t.items(), item),
{
    reveal(Tree::wf_from);
    lemma_route(t, lo, hi, tight, item.key, i);
    lemma_cat_update(t->kids, i, u);
    lemma_with_item_within(cat(t->kids.take(i)), t->kids[i].items(), cat(t->kids.skip(i + 1)), item);
}

/// An element taken out of the child that it belongs to is taken out of the branch.
proof fn lemma_del_kid(t: Tree, lo: Option<Key>, hi: Option<Key>, tight: bool, i: int, u: Tree, key: Key)
    requires
        t.wf(lo, hi, tight),
        t is Branch,
        routes(t->keys, key, i),
        u.items() == without_key(t->kids[i].items(), key),
    ensures
        cat(t->kids.update(i, u)) == without_key(t.items(), key),
{
    reveal(Tree::wf_from);
    lemma_route(t, lo, hi, tight, key, i);
    lemma_cat_update(t->kids, i, u);
    lemma_pos_within(cat(t->kids.take(i)), t->kids[i].items(), cat(t->kids.skip(i + 1)), key);
}

/// The place found by comparing keys is the one that the order defines.
proof fn lemma_position_is_pos(s: Seq<Inode>, k: Key, r: int)
    requires
        in_order(views(s)),
        0 <= r <= s.len(),
        forall|j: int| 0 <= j < r ==> less((#[trigger] s[j]).key@, k),
        forall|j: int| r <= j < s.len() ==> !less((#[trigger] s[j]).key@, k),
    ensures
        pos(views(s), k) == r,
{
    let v = views(s);
    lemma_pos(v, k);
    let q = pos(v, k);
    if q < r {
        assert(v[q].key == s[q].key@);
    } else if r < q {
        assert(v[r].key == s[r].key@);
    }
}

/// A leaf whose elements are changed stays a leaf of the same range.
proof fn lemma_leaf_changed(n: Node, m: Node, base: Base, lo: Option<Key>, hi: Option<Key>, tight: bool)
    requires
        n.ok(base),
        n.is_leaf,
        m.is_leaf,
        m.pgid == n.pgid,
        m.overflow == n.overflow,
        m.children@ == n.children@,
        in_order(views(m.inodes@)),
        forall|i: int| 0 <= i < m.inodes@.len() ==> key_ok((#[trigger] m.inodes@[i])@.key, lo, hi) && m.inodes@[i]@.pgid == 0
            && base.item_ok(m.inodes@[i]@),
    ensures
        m.ok(base),
        m.tree(base).wf(lo, hi, tight),
        alike(n.tree(base), m.tree(base)),
{
    reveal(Node::ok);
    reveal(Tree::wf_from);
    let v = views(m.inodes@);
    assert forall|i: int| 0 <= i < v.len() implies key_ok(#[trigger] v[i].key, lo, hi) by {
        assert(v[i] == m.inodes@[i]@);
    }
    assert forall|i: int| 0 <= i < v.len() implies (#[trigger] v[i]).pgid == 0 by {
        assert(v[i] == m.inodes@[i]@);
    }
}

/// How many nodes are to be rebalanced when one child is replaced.
pub proof fn lemma_flagged_update(children: Seq<Option<Box<Node>>>, i: int, c: Node)
    requires
        0 <= i < children.len(),
    ensures
        flagged_in(children.update(i, Some(Box::new(c)))) == flagged_in(children) + c.flagged() - child_flags(children[i]),
    decreases children.len(),
{
    let u = children.update(i, Some(Box::new(c)));
    if i == children.len() - 1 {
        assert(u.drop_last() =~= children.drop_last());
        assert(child_flags(u.last()) == c.flagged());
    } else {
        lemma_flagged_update(children.drop_last(), i, c);
        assert(u.drop_last() =~= children.drop_last().update(i, Some(Box::new(c))));
        assert(u.last() == children.last());
    }
}

} // verus!
