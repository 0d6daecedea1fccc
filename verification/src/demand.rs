//! How much writing the open buckets of a transaction can add to the file.
use vstd::prelude::*;
use crate::bucket::BucketInner;
use crate::budget::{lemma_row_cost_less, levels, root_cost, row_cost};
use crate::inode::InodeV;
use crate::node::Base;
use crate::seal::{lemma_wide, wide};

verus! {

/// The bytes that the pages of a bucket with these elements take at most, whatever becomes of
/// nested buckets.
pub open spec fn wide_cost(items: Seq<InodeV>, page_size: int) -> int {
    (1 + 2 * levels(items.len() as int)) * (wide(items, page_size) + (16 + page_size) * items.len()) + 16 + page_size
}

/// The bytes that the pages of the first `d` buckets take at most, as far as these are open.
pub open spec fn need(bs: Seq<BucketInner>, base: Base, page_size: int, d: int) -> int
    decreases d,
{
    if d <= 0 {
        0
    } else {
        need(bs, base, page_size, d - 1) + (if bs[d - 1].live {
            wide_cost(bs[d - 1].items(base), page_size)
        } else {
            0
        })
    }
}

/// With room for what becomes of nested buckets there is room for what is there.
pub proof fn lemma_wide_cost(s: Seq<InodeV>, page_size: int)
    requires
        page_size >= 0,
    ensures
        0 <= root_cost(s, page_size) <= wide_cost(s, page_size),
{
    let l = 1 + 2 * levels(s.len() as int);
    let n = s.len() as int;
    let a = row_cost(s, page_size);
    let b = wide(s, page_size) + (16 + page_size) * n;
    lemma_wide(s, page_size);
    lemma_row_cost_less(Seq::<InodeV>::empty(), s, page_size);
    assert((32 + page_size) * n == 16 * n + (16 + page_size) * n) by (nonlinear_arith);
    assert(0 <= l * a <= l * b) by (nonlinear_arith)
        requires
            0 <= a <= b,
            l >= 0,
    ;
}

/// As many elements that are no larger take no more.
pub proof fn lemma_wide_less(s: Seq<InodeV>, t: Seq<InodeV>, page_size: int)
    requires
        s.len() == t.len(),
        wide(s, page_size) <= wide(t, page_size),
    ensures
        wide_cost(s, page_size) <= wide_cost(t, page_size),
{
    let l = 1 + 2 * levels(s.len() as int);
    let a = wide(s, page_size) + (16 + page_size) * s.len();
    let b = wide(t, page_size) + (16 + page_size) * t.len();
    assert(l * a <= l * b) by (nonlinear_arith)
        requires
            a <= b,
            l >= 0,
    ;
}

/// The first buckets take no more than all.
pub proof fn lemma_need_first(bs: Seq<BucketInner>, base: Base, page_size: int, c: int, d: int)
    requires
        page_size >= 0,
        c <= d,
    ensures
        need(bs, base, page_size, c) <= need(bs, base, page_size, d),
    decreases d,
{
    if 0 < d && c < d {
        lemma_need_first(bs, base, page_size, c, d - 1);
        lemma_wide_cost(bs[d - 1].items(base), page_size);
    }
}

/// Buckets that are still open, with as many elements that are no larger, take no more.
pub proof fn lemma_need_less(
    bs: Seq<BucketInner>,
    b0: Base,
    cs: Seq<BucketInner>,
    b1: Base,
    page_size: int,
    d: int,
)
    requires
        page_size >= 0,
        d <= bs.len(),
        d <= cs.len(),
        forall|b: int|
            #![trigger cs[b]]
            0 <= b < d && cs[b].live ==> {
                &&& bs[b].live
                &&& cs[b].items(b1).len() == bs[b].items(b0).len()
                &&& wide(cs[b].items(b1), page_size) <= wide(bs[b].items(b0), page_size)
            },
    ensures
        need(cs, b1, page_size, d) <= need(bs, b0, page_size, d),
    decreases d,
{
    if d > 0 {
        lemma_need_less(bs, b0, cs, b1, page_size, d - 1);
        lemma_wide_cost(bs[d - 1].items(b0), page_size);
        if cs[d - 1].live {
            lemma_wide_less(cs[d - 1].items(b1), bs[d - 1].items(b0), page_size);
        }
    }
}

} // verus!
