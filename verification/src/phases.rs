//! The phases of a commit: all open buckets are rebalanced, then closed one by one, and the root
//! bucket is written last.
use vstd::prelude::*;
use crate::bucket::BucketInner;
use crate::closing::closes;
use crate::edits::{edits_bucket, Edit};
use crate::inode::InodeV;
use crate::layout::laid_root;
use crate::node::Base;
use crate::page::Pgid;
use crate::reach::reached;
use crate::seal::{bucket_pieces, filed, top_pieces};
use crate::tending::rebalances;
use crate::tree::at_key;
use crate::writer::extends;

verus! {

/// The open buckets at some point of a commit, with the pages that there are by then and the pieces
/// that were written to them.
pub struct Phase {
    pub buckets: Seq<BucketInner>,
    pub base: Base,
    pub pieces: Seq<Seq<InodeV>>,
}

/// The nodes of bucket `b` have been rebalanced.
pub open spec fn smoothed(b: BucketInner, c: BucketInner, base: Base) -> bool {
    b.root_node is Some ==> c.root_node is Some && rebalances(
        *b.root_node->0,
        *c.root_node->0,
        base,
        b.merge_at as int,
    )
}

/// All open buckets have been rebalanced, and nothing else about them has changed.
pub open spec fn all_smoothed(bs: Seq<BucketInner>, cs: Seq<BucketInner>, base: Base) -> bool {
    &&& cs.len() == bs.len()
    &&& forall|b: int|
        #![trigger cs[b]]
        0 <= b < bs.len() ==> {
            &&& cs[b].same_but_root(bs[b])
            &&& bs[b].live ==> smoothed(bs[b], cs[b], base)
        }
}

/// Bucket `d` has been closed: it is now element `v` of the bucket around it.
pub open spec fn closed_as(x: Phase, y: Phase, d: int, r: int, v: InodeV) -> bool {
    let b = x.buckets[d];
    let q = b.parent as int;
    &&& closes(x.buckets, x.base, y.buckets, y.base, d, r, v)
    &&& filed(b, y.base, v)
    &&& y.pieces == x.pieces + bucket_pieces(b, x.base.page_size)
    &&& if b.root_node is None {
        &&& y.base == x.base
        &&& at_key(x.buckets[q].items(x.base), v.key) == Some(v)
        &&& y.buckets[q].root_node == x.buckets[q].root_node
    } else {
        edits_bucket(x.buckets[q], y.buckets[q], y.base, Edit::Put { item: v })
    }
}

/// The last open bucket has been closed.
pub open spec fn closed_one(x: Phase, y: Phase) -> bool {
    exists|d: int, r: int, v: InodeV| #[trigger] closed_as(x, y, d, r, v)
}

/// Open buckets have been closed one after the other.
pub open spec fn closing(path: Seq<Phase>) -> bool {
    &&& path.len() >= 1
    &&& forall|k: int| 0 < k < path.len() ==> closed_one(path[k - 1], #[trigger] path[k])
}

/// From one phase to another open buckets have been closed one after the other.
#[verifier::opaque]
pub open spec fn closed_from(x: Phase, y: Phase) -> bool {
    exists|path: Seq<Phase>| #[trigger] closing(path) && path[0] == x && path.last() == y
}

/// Page `root` is that of the root bucket, the only one that is open still. If the bucket was
/// changed its pages are filled as it was told to.
pub open spec fn root_written(x: Phase, base: Base, root: Pgid) -> bool {
    &&& extends(x.base, base)
    &&& forall|b: int| #![trigger x.buckets[b]] 0 < b < x.buckets.len() ==> !x.buckets[b].live
    &&& match x.buckets[0].root_node {
        None => root == x.buckets[0].header.root,
        Some(n) => laid_root(base, *n, root, x.buckets[0].split_at as int),
    }
}

/// The open buckets `bs` have been rebalanced, closed and written to the pages of `base`.
#[verifier::opaque]
pub open spec fn laid_out(bs: Seq<BucketInner>, before: Base, base: Base, root: Pgid) -> bool {
    exists|x: Phase, y: Phase| #[trigger]
        closed_from(x, y) && x.base == before && all_smoothed(bs, x.buckets, before) && root_written(y, base, root)
}

/// Bucket `d` is the next one to be written.
pub open spec fn is_next(bs: Seq<BucketInner>, d: int) -> bool {
    &&& 0 <= d < bs.len()
    &&& bs[d].live
    &&& forall|b: int| #![trigger bs[b]] d < b < bs.len() ==> !bs[b].live
}

/// What is written of the next bucket.
pub open spec fn next_pieces(y: Phase, d: int) -> Seq<Seq<InodeV>> {
    if d == 0 {
        top_pieces(y.buckets[0], y.base.page_size)
    } else {
        bucket_pieces(y.buckets[d], y.base.page_size)
    }
}

/// From phase `x` on, `pieces` are what is written up to bucket `d` and of it.
pub open spec fn pieces_from(x: Phase, y: Phase, d: int, pieces: Seq<Seq<InodeV>>) -> bool {
    &&& closed_from(x, y)
    &&& is_next(y.buckets, d)
    &&& pieces == y.pieces + next_pieces(y, d)
}

/// The pieces are what is written of the open buckets `bs` from the last one on, after they have been
/// rebalanced: of some of them, or with `whole` of all.
#[verifier::opaque]
pub open spec fn to_write(bs: Seq<BucketInner>, before: Base, pieces: Seq<Seq<InodeV>>, whole: bool) -> bool {
    exists|x: Phase, y: Phase, d: int| #[trigger]
        pieces_from(x, y, d, pieces) && x.base == before && x.pieces.len() == 0 && all_smoothed(bs, x.buckets, before)
            && (whole ==> d == 0)
}

/// What is written of all buckets is written of some.
pub proof fn lemma_to_write(bs: Seq<BucketInner>, before: Base, pieces: Seq<Seq<InodeV>>)
    requires
        to_write(bs, before, pieces, true),
    ensures
        to_write(bs, before, pieces, false),
{
    reveal(to_write);
    let (x, y, d) = choose|x: Phase, y: Phase, d: int| #[trigger]
        pieces_from(x, y, d, pieces) && x.base == before && x.pieces.len() == 0 && all_smoothed(bs, x.buckets, before)
            && d == 0;
    assert(pieces_from(x, y, d, pieces));
}

/// The pages that are in use after a commit, as far as they lead from the root, are those that the
/// open buckets were written to.
#[verifier::opaque]
pub open spec fn written_to(bs: Seq<BucketInner>, before: Base, after: Base, root: Pgid) -> bool {
    exists|all: Base| #[trigger]
        laid_out(bs, before, all, root) && after == reached(all, root, after.list_pgid, after.list_over, after.limit)
}

/// Nothing is closed yet.
pub proof fn lemma_closed_none(x: Phase)
    ensures
        closed_from(x, x),
{
    reveal(closed_from);
    let path = seq![x];
    assert(closing(path) && path[0] == x && path.last() == x);
}

/// One more bucket is closed.
pub proof fn lemma_closed_more(x: Phase, y: Phase, z: Phase)
    requires
        closed_from(x, y),
        closed_one(y, z),
    ensures
        closed_from(x, z),
{
    reveal(closed_from);
    let path = choose|path: Seq<Phase>| #[trigger] closing(path) && path[0] == x && path.last() == y;
    let more = path.push(z);
    assert forall|k: int| 0 < k < more.len() implies closed_one(more[k - 1], #[trigger] more[k]) by {
        if k < path.len() {
            assert(more[k] == path[k]);
        }
    }
    assert(closing(more) && more[0] == x && more.last() == z);
}

} // verus!
