//! A bucket as a transaction has it: on its pages, or with some of them in memory.
use vstd::prelude::*;
use vstd::slice::slice_to_vec;
use crate::bytes::le64;
use crate::contents::{items_ok, lemma_node_subs, lemma_page_subs};
use crate::edits::{edits_bucket, inline_node, root_before, Edit};
use crate::inode::{decode, read_inodes, views, Inode, InodeV};
use crate::node::{inline_ok, inline_page, inline_tree, load, Base, Node, Pages};
use crate::page::{header_of, in_bucket_at, set_page_flags, InBucket, LEAF_PAGE_FLAG, PageHeader, Pgid};
use crate::search::{find_in_page, find_node, find_page, found};
use crate::tree::{alike, at_key, in_order, is_bucket, key_ok, lemma_alike_same, lemma_alike_trans, lemma_wf_items, lemma_wf_one, with_item, without_key, Key, Tree};
use crate::writer::lemma_zero_header;

verus! {

/// The place of a bucket among the buckets that a transaction has opened.
pub type BucketId = usize;

/// A bucket that is open in a transaction.
pub struct BucketInner {
    pub header: InBucket,
    /// The root, once it is in memory.
    pub root_node: Option<Box<Node>>,
    /// The page of a bucket that was inline when it was opened.
    pub inline_page: Option<Vec<u8>>,
    /// The nested buckets that are open.
    pub subbuckets: Vec<(Vec<u8>, BucketId)>,
    /// Whether the bucket is still where it was opened.
    pub live: bool,
    /// The bucket that this one is nested in, and its key there.
    pub parent: BucketId,
    pub name: Vec<u8>,
    /// How many bytes a page is filled with when a node is split.
    pub split_at: usize,
    /// The size up to which a node is merged with a neighbour after a deletion.
    pub merge_at: usize,
}

/// The branches of the root in memory are those on the pages.
#[verifier::opaque]
pub open spec fn unsplit(n: Node, root: Pgid, base: Base) -> bool {
    &&& root == 0 ==> n.is_leaf
    &&& root != 0 ==> alike(base.forest[root], n.tree(base))
}

/// The names in a list of open buckets.
pub open spec fn names(subs: Seq<(Vec<u8>, BucketId)>) -> Set<Key> {
    Set::new(|k: Key| exists|i: int| 0 <= i < subs.len() && (#[trigger] subs[i]).0@ == k)
}

impl BucketInner {
    /// What the bucket holds now.
    pub open spec fn tree(&self, base: Base) -> Tree {
        match self.root_node {
            Some(n) => n.tree(base),
            None => if self.header.root == 0 {
                inline_tree(self.inline_page->0@)
            } else {
                base.forest[self.header.root]
            },
        }
    }

    /// The elements that the bucket holds now.
    pub open spec fn items(&self, base: Base) -> Seq<InodeV> {
        self.tree(base).items()
    }

    /// How many nodes are to be rebalanced.
    pub open spec fn flags(&self) -> nat {
        match self.root_node {
            Some(n) => n.flagged(),
            None => 0,
        }
    }

    /// The keys of the nested buckets that are open.
    pub open spec fn opened(&self) -> Set<Key> {
        names(self.subbuckets@)
    }

    /// The bucket is consistent with the pages.
    pub open spec fn ok(&self, base: Base, tight: bool) -> bool {
        &&& self.split_at <= base.page_size
        &&& self.tree(base).wf(None, None, tight)
        &&& match self.root_node {
            Some(n) => n.ok(base) && n.pgid == self.header.root,
            None => if self.header.root == 0 {
                self.inline_page is Some
            } else {
                base.old.contains(self.header.root)
            },
        }
        &&& self.header.root == 0 && self.inline_page is Some ==> inline_ok(self.inline_page->0@)
        &&& tight && self.header.root != 0 ==> base.forest[self.header.root].wf(None, None, true)
        &&& tight && self.root_node is Some ==> unsplit(*self.root_node->0, self.header.root, base)
    }

    /// The bucket as it is on its pages.
    pub open spec fn disk(&self, base: Base) -> Tree {
        if self.header.root == 0 {
            match self.inline_page {
                Some(page) => inline_tree(page@),
                None => Tree::Leaf { pgid: 0, over: 0, items: Seq::empty(), subs: Seq::empty() },
            }
        } else {
            base.forest[self.header.root]
        }
    }

    /// All but the root is as it was.
    pub open spec fn same_but_root(&self, other: BucketInner) -> bool {
        *self == (BucketInner { root_node: self.root_node, ..other })
    }

    /// What holds of the elements.
    pub proof fn lemma_items(&self, base: Base, tight: bool)
        requires
            base.ok(),
            self.ok(base, tight),
        ensures
            in_order(self.items(base)),
            items_ok(base, self.items(base)),
            self.tree(base).subs() == base.subs(self.items(base)),
            forall|i: int| 0 <= i < self.items(base).len() ==> key_ok(#[trigger] self.items(base)[i].key, None, None),
            forall|i: int| 0 <= i < self.items(base).len() ==> (#[trigger] self.items(base)[i]).pgid == 0,
    {
        let t = self.tree(base);
        lemma_wf_one(t, None, None, tight);
        lemma_wf_items(t, None, None, tight);
        match self.root_node {
            Some(n) => {
                lemma_node_subs(base, *n);
            },
            None => {
                if self.header.root == 0 {
                    let page = self.inline_page->0@;
                    assert(t.items() == decode(page));
                    assert forall|i: int| 0 <= i < t.items().len() implies base.item_ok(#[trigger] t.items()[i]) by {
                        assert(!is_bucket(decode(page)[i]));
                    }
                    assert forall|i: int| 0 <= i < t.items().len() implies t.subs()[i] == base.subs(t.items())[i] by {
                        assert(!is_bucket(decode(page)[i]));
                    }
                    assert(t.subs() =~= base.subs(t.items()));
                } else {
                    assert(base.page_ok(self.header.root));
                    lemma_page_subs(base, t);
                }
            },
        }
    }

    /// Brings the root into memory.
    pub fn ensure_root_node(&mut self, pages: &Pages, Ghost(base): Ghost<Base>, Ghost(tight): Ghost<bool>)
        requires
            base.ok(),
            pages.backs(base),
            old(self).ok(base, tight),
        ensures
            final(self).ok(base, tight),
            final(self).root_node is Some,
            final(self).tree(base) == old(self).tree(base),
            final(self).same_but_root(*old(self)),
            final(self).flags() == old(self).flags(),
            root_before(*old(self), base, *final(self).root_node->0),
    {
        if self.root_node.is_some() {
            return;
        }
        if self.header.root == 0 {
            let n: Node = load_inline(self.inline_page.as_ref().unwrap().as_slice(), Ghost(base));
            self.root_node = Some(Box::new(n));
        } else {
            let n: Node = load(pages, self.header.root, Ghost(base));
            self.root_node = Some(Box::new(n));
        }
        proof {
            reveal(unsplit);
            lemma_alike_same(self.tree(base));
        }
    }

    /// The element of a key.
    pub fn find(&self, pages: &Pages, key: &[u8], Ghost(base): Ghost<Base>, Ghost(tight): Ghost<bool>) -> (r: Option<
        Inode,
    >)
        requires
            base.ok(),
            pages.backs(base),
            self.ok(base, tight),
        ensures
            found(self.tree(base), key@, r),
    {
        match &self.root_node {
            Some(n) => find_node(pages, n, key, Ghost(base), Ghost(None), Ghost(None), Ghost(tight)),
            None => {
                if self.header.root == 0 {
                    proof {
                        self.lemma_items(base, tight);
                    }
                    find_in_page(self.inline_page.as_ref().unwrap().as_slice(), key)
                } else {
                    find_page(pages, self.header.root, key, Ghost(base), Ghost(None), Ghost(None), Ghost(tight))
                }
            },
        }
    }

    /// Puts an element in its place.
    pub fn put(&mut self, pages: &Pages, item: Inode, Ghost(base): Ghost<Base>, Ghost(tight): Ghost<bool>)
        requires
            base.ok(),
            pages.backs(base),
            old(self).ok(base, tight),
            key_ok(item@.key, None, None),
            tight || at_key(old(self).items(base), item@.key) is Some,
            item@.pgid == 0,
            base.item_ok(item@),
        ensures
            final(self).ok(base, tight),
            final(self).root_node is Some,
            final(self).items(base) == with_item(old(self).items(base), item@),
            alike(old(self).tree(base), final(self).tree(base)),
            final(self).same_but_root(*old(self)),
            final(self).flags() == old(self).flags(),
            edits_bucket(*old(self), *final(self), base, Edit::Put { item: item@ }),
    {
        self.ensure_root_node(pages, Ghost(base), Ghost(tight));
        let mut n: Box<Node> = self.root_node.take().unwrap();
        let ghost n0 = *n;
        n.put(pages, item, Ghost(base), Ghost(None), Ghost(None), Ghost(tight));
        proof {
            crate::tree::lemma_alike_uses(n0.tree(base), n.tree(base));
            assert(n0.tree(base).pgid() == n0.pgid);
            assert(n.tree(base).pgid() == n.pgid);
            reveal(unsplit);
            if self.header.root != 0 && tight {
                lemma_alike_trans(base.forest[self.header.root], n0.tree(base), n.tree(base));
            }
        }
        self.root_node = Some(n);
    }

    /// Takes an element out.
    pub fn del(&mut self, pages: &Pages, key: &[u8], Ghost(base): Ghost<Base>)
        requires
            base.ok(),
            pages.backs(base),
            old(self).ok(base, true),
            at_key(old(self).items(base), key@) is Some,
        ensures
            final(self).ok(base, true),
            final(self).root_node is Some,
            final(self).items(base) == without_key(old(self).items(base), key@),
            alike(old(self).tree(base), final(self).tree(base)),
            final(self).same_but_root(*old(self)),
            edits_bucket(*old(self), *final(self), base, Edit::Del { key: key@ }),
    {
        self.ensure_root_node(pages, Ghost(base), Ghost(true));
        let mut n: Box<Node> = self.root_node.take().unwrap();
        let ghost n0 = *n;
        n.del(pages, key, Ghost(base), Ghost(None), Ghost(None), Ghost(true));
        proof {
            crate::tree::lemma_alike_uses(n0.tree(base), n.tree(base));
            assert(n0.tree(base).pgid() == n0.pgid);
            assert(n.tree(base).pgid() == n.pgid);
            reveal(unsplit);
            if self.header.root != 0 {
                lemma_alike_trans(base.forest[self.header.root], n0.tree(base), n.tree(base));
            }
        }
        self.root_node = Some(n);
    }
}

/// The node of an inline page.
pub fn load_inline(page: &[u8], Ghost(base): Ghost<Base>) -> (n: Node)
    requires
        inline_ok(page@),
    ensures
        n.ok(base),
        n.tree(base) == inline_tree(page@),
        n.pgid == 0,
        n.flagged() == 0,
        inline_node(page@, n),
{
    let hdr = PageHeader::read(page);
    let inodes: Vec<Inode> = read_inodes(page);
    let n = Node {
        is_leaf: true,
        unbalanced: false,
        pgid: 0,
        overflow: hdr.overflow,
        inodes,
        children: Vec::new(),
    };
    proof {
        reveal(Node::ok);
        let items = decode(page@);
        assert(views(n.inodes@) == items);
        assert forall|i: int| 0 <= i < n.inodes@.len() implies base.item_ok((#[trigger] n.inodes@[i])@) by {
            assert(views(n.inodes@)[i] == n.inodes@[i]@);
            assert(!is_bucket(items[i]));
        }
        assert forall|i: int| 0 <= i < items.len() implies base.subs(items)[i] == None::<Tree> by {
            assert(!is_bucket(items[i]));
        }
        assert(base.subs(items) =~= inline_tree(page@)->subs);
        n.lemma_no_flags();
    }
    n
}

/// The value of a nested bucket: its header, and its page where it is inline.
pub fn bucket_value(header: InBucket, page: Vec<u8>) -> (value: Vec<u8>)
    ensures
        value@.len() == 16 + page@.len(),
        in_bucket_at(value@, 0) == header,
        inline_page(value@) == page@,
{
    let b: [u8; 16] = header.to_bytes();
    let mut value: Vec<u8> = slice_to_vec(b.as_slice());
    let mut page = page;
    let ghost page0 = page@;
    value.append(&mut page);
    proof {
        assert(value@ =~= b@ + page0);
        assert(le64(value@, 0) == le64(b@, 0));
        assert(le64(value@, 8) == le64(b@, 8));
        assert(inline_page(value@) =~= page0);
    }
    value
}

/// The value of a bucket that holds nothing.
pub open spec fn empty_bucket(value: Seq<u8>) -> bool {
    &&& value.len() == 32
    &&& in_bucket_at(value, 0) == (InBucket { root: 0, sequence: 0 })
    &&& header_of(inline_page(value)) == (PageHeader { id: 0, flags: LEAF_PAGE_FLAG, count: 0, overflow: 0 })
}

/// A bucket that holds nothing is an inline bucket.
pub proof fn lemma_empty_bucket(value: Seq<u8>)
    requires
        empty_bucket(value),
    ensures
        inline_ok(inline_page(value)),
        decode(inline_page(value)) == Seq::<InodeV>::empty(),
{
    let page = inline_page(value);
    assert(decode(page) =~= Seq::<InodeV>::empty());
    reveal(Tree::wf_from);
}

/// The value of a new bucket.
pub fn empty_inline_bucket_value() -> (value: Vec<u8>)
    ensures
        empty_bucket(value@),
{
    let mut page: Vec<u8> = vec![0u8; 16];
    proof {
        lemma_zero_header(page@);
    }
    set_page_flags(&mut page, LEAF_PAGE_FLAG);
    bucket_value(InBucket { root: 0, sequence: 0 }, page)
}

} // verus!
