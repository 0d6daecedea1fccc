//! What putting and deleting do to the nodes of a bucket.
use vstd::prelude::*;
use crate::balance::lemma_flagged_remove;
use crate::bucket::BucketInner;
use crate::inode::{decode, views, InodeV};
use crate::node::{child_flags, fresh_node, lemma_flagged_update, Base, Node};
use crate::page::header_of;
use crate::tending::{child_node, child_set};
use crate::tree::{routes, with_item, without_key, Key};

verus! {

/// A change to one element.
pub enum Edit {
    Put { item: InodeV },
    Del { key: Key },
}

impl Edit {
    /// The key of the element.
    pub open spec fn key(self) -> Key {
        match self {
            Edit::Put { item } => item.key,
            Edit::Del { key } => key,
        }
    }

    /// The elements after the change.
    pub open spec fn of(self, items: Seq<InodeV>) -> Seq<InodeV> {
        match self {
            Edit::Put { item } => with_item(items, item),
            Edit::Del { key } => without_key(items, key),
        }
    }
}

/// Node `n0` has become `n1` by a change in the leaf that the key belongs to. That leaf and all nodes
/// above it are in memory now. A leaf from which an element was taken is marked; every other mark is
/// as it was.
pub open spec fn edits(n0: Node, n1: Node, base: Base, e: Edit) -> bool
    decreases n1,
{
    if n0.is_leaf {
        &&& n1 == (Node { inodes: n1.inodes, unbalanced: n0.unbalanced || e is Del, ..n0 })
        &&& views(n1.inodes@) == e.of(views(n0.inodes@))
    } else {
        exists|i: int, c0: Node| #[trigger]
            edits_child(n0, n1, base, e, i, c0) && 0 <= i < n1.children@.len() && match n1.children@[i] {
                Some(c1) => edits(c0, *c1, base, e),
                None => false,
            }
    }
}

/// The change is in child `i`, the node of which was `c0`.
pub open spec fn edits_child(n0: Node, n1: Node, base: Base, e: Edit, i: int, c0: Node) -> bool {
    &&& routes(n0.keys(), e.key(), i)
    &&& child_node(n0, base, i, c0)
    &&& n1.children@[i] is Some
    &&& child_set(n0, n1, i, *n1.children@[i]->0)
}

/// Node `n` is what is read from an inline page.
pub open spec fn inline_node(page: Seq<u8>, n: Node) -> bool {
    &&& n.is_leaf
    &&& !n.unbalanced
    &&& n.pgid == 0
    &&& n.overflow == header_of(page).overflow
    &&& views(n.inodes@) == decode(page)
    &&& n.children@.len() == 0
}

/// Node `n` is the root of a bucket: the one in memory, or else the one that is read.
pub open spec fn root_before(b: BucketInner, base: Base, n: Node) -> bool {
    match b.root_node {
        Some(x) => n == *x,
        None => if b.header.root == 0 {
            inline_node(b.inline_page->0@, n)
        } else {
            fresh_node(base, b.header.root, n)
        },
    }
}

/// The nodes of bucket `b0` have become those of `b1` by a change to one element.
pub open spec fn edits_bucket(b0: BucketInner, b1: BucketInner, base: Base, e: Edit) -> bool {
    &&& b1.root_node is Some
    &&& exists|n0: Node| #[trigger] root_before(b0, base, n0) && edits(n0, *b1.root_node->0, base, e)
}

/// What else is known of a bucket makes no difference.
pub proof fn lemma_edits_same(b0: BucketInner, c0: BucketInner, b1: BucketInner, base: Base, e: Edit)
    requires
        edits_bucket(b0, b1, base, e),
        c0.root_node == b0.root_node,
        c0.header == b0.header,
        c0.inline_page == b0.inline_page,
    ensures
        edits_bucket(c0, b1, base, e),
{
    let n0 = choose|n0: Node| #[trigger] root_before(b0, base, n0) && edits(n0, *b1.root_node->0, base, e);
    assert(root_before(c0, base, n0));
}

/// A leaf has no children, and a branch has one place for each of its elements.
pub open spec fn shaped(n: Node) -> bool
    decreases n,
{
    &&& n.is_leaf ==> n.children@.len() == 0
    &&& !n.is_leaf ==> n.children@.len() == n.inodes@.len()
    &&& forall|i: int|
        0 <= i < n.children@.len() ==> match #[trigger] n.children@[i] {
            Some(c) => shaped(*c),
            None => true,
        }
}

/// A put marks no node. A delete marks one, unless that was marked, and takes no mark away: so after
/// a delete there is something to be rebalanced.
pub proof fn lemma_edit_marks(n0: Node, n1: Node, base: Base, e: Edit)
    requires
        edits(n0, n1, base, e),
        shaped(n0),
    ensures
        e is Put ==> n1.flagged() == n0.flagged(),
        e is Del ==> 0 < n1.flagged() && n0.flagged() <= n1.flagged() <= n0.flagged() + 1,
    decreases n1,
{
    if !n0.is_leaf {
        let (i, c0) = choose|i: int, c0: Node| #[trigger]
            edits_child(n0, n1, base, e, i, c0) && 0 <= i < n1.children@.len() && match n1.children@[i] {
                Some(c1) => edits(c0, *c1, base, e),
                None => false,
            };
        let c1 = *n1.children@[i]->0;
        assert(i < n0.children@.len());
        assert(n1.children@[i] == Some(Box::new(c1)));
        lemma_flagged_update(n0.children@, i, c1);
        lemma_flagged_remove(n0.children@, i);
        match n0.children@[i] {
            Some(x) => {
                assert(child_flags(n0.children@[i]) == c0.flagged());
            },
            None => {
                c0.lemma_no_flags();
            },
        }
        lemma_edit_marks(c0, c1, base, e);
    } else {
        assert(n1.children@ =~= n0.children@);
    }
}

} // verus!
