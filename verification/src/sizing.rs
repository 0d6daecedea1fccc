//! Whether what a transaction holds can be written.
use vstd::prelude::*;
use crate::inode::{data_len, storable_at, InodeV};
use crate::seal::{wide_fits, widened};
use crate::spill::{few_fit, fits};
use crate::tx::TxInner;
use crate::visit::sizes_of;

verus! {

/// Where some elements can be stored the first of them can.
proof fn lemma_first_fit(items: Seq<InodeV>, n: int, page_size: int)
    requires
        few_fit(items, page_size),
        0 <= n <= items.len(),
    ensures
        few_fit(items.take(n), page_size),
{
    let s = items.take(n);
    assert forall|i: int| 0 <= i < s.len() implies #[trigger] storable_at(s, i) by {
        assert(storable_at(items, i));
        assert(s.take(i) =~= items.take(i));
    }
    assert(items =~= s + items.skip(n));
    crate::budget::lemma_data_add(s, items.skip(n));
}

/// Whether `n` elements from `at` on can be stored on one page.
fn window_fits(sizes: &Vec<(usize, usize)>, at: usize, n: usize, page_size: usize, Ghost(items): Ghost<Seq<InodeV>>) -> (r: bool)
    requires
        sizes_of(sizes@, items),
        at + n <= items.len(),
        n <= 4,
    ensures
        r == few_fit(items.subrange(at as int, at + n), page_size as int),
{
    let ghost w = items.subrange(at as int, at + n);
    let mut sum: u64 = 0;
    let mut k: usize = 0;
    assert(w.take(0) =~= Seq::<InodeV>::empty());
    while k < n
        invariant
            k <= n,
            n <= 4,
            at + n <= items.len(),
            sizes_of(sizes@, items),
            w == items.subrange(at as int, at + n),
            sum == data_len(w.take(k as int)),
            sum <= k * 0x2_0000_0000,
            forall|j: int| 0 <= j < k ==> #[trigger] storable_at(w, j),
        decreases n - k,
    {
        assert(sizes.len() == sizes@.len());
        let size: (usize, usize) = sizes[at + k];
        proof {
            assert(w[k as int] == items[at + k]);
            assert(w.take(k + 1).drop_last() =~= w.take(k as int));
            assert(w.take(k + 1).last() == w[k as int]);
        }
        if size.0 as u64 > 0xFFFF_FFFF || size.1 as u64 > 0xFFFF_FFFF || 16 * ((n - k) as u64) + sum > 0xFFFF_FFFF {
            assert(!storable_at(w, k as int));
            return false;
        }
        assert(storable_at(w, k as int));
        sum = sum + (size.0 as u64 + size.1 as u64);
        k = k + 1;
    }
    assert(w.take(n as int) =~= w);
    (16 + 16 * (n as u128) + sum as u128 + page_size as u128) <= usize::MAX as u128
}

/// Element `k` and the three behind it can be stored on one page.
spec fn next_fit(items: Seq<InodeV>, k: int, page_size: int) -> bool {
    few_fit(items.subrange(k, if items.len() - k < 4 { items.len() as int } else { k + 4 }), page_size)
}

/// Whether elements of these sizes can be stored.
fn sizes_fit(sizes: &Vec<(usize, usize)>, page_size: usize, Ghost(items): Ghost<Seq<InodeV>>) -> (r: bool)
    requires
        sizes_of(sizes@, items),
        page_size <= 0x4000_0000,
    ensures
        r == fits(items, page_size as int),
{
    if page_size > 0x10_0000 && sizes.len() >= 0xFFFF {
        return false;
    }
    let mut i: usize = 0;
    while i < sizes.len()
        invariant
            i <= sizes@.len(),
            sizes_of(sizes@, items),
            page_size <= 0x4000_0000,
            page_size <= 0x10_0000 || items.len() < 0xFFFF,
            forall|k: int| 0 <= k < i ==> #[trigger] next_fit(items, k, page_size as int),
        decreases sizes@.len() - i,
    {
        let left: usize = sizes.len() - i;
        let n: usize = if left < 4 { left } else { 4 };
        if !window_fits(sizes, i, n, page_size, Ghost(items)) {
            return false;
        }
        assert(next_fit(items, i as int, page_size as int));
        i = i + 1;
    }
    proof {
        assert forall|a: int, b: int| 0 <= a <= b <= items.len() && b - a <= 4 implies few_fit(
            #[trigger] items.subrange(a, b),
            page_size as int,
        ) by {
            if a < items.len() {
                assert(next_fit(items, a, page_size as int));
                let n = if items.len() - a < 4 { items.len() - a } else { 4 };
                let w = items.subrange(a, a + n);
                lemma_first_fit(w, b - a, page_size as int);
                assert(w.take(b - a) =~= items.subrange(a, b));
            } else {
                assert(data_len(items.subrange(a, b)) == 0);
            }
        }
    }
    true
}

impl<'a> TxInner<'a> {
    /// Whether what the transaction holds has a size that pages and the machine can cope with.
    pub fn is_sized(&self) -> (r: bool)
        requires
            self.good(),
            self.shut() is None,
        ensures
            r == self.sized(),
    {
        let page_size: usize = self.pages.page_size;
        if self.meta.pgid > 0x40_0000_0000 || self.meta.pgid as u128 * 8 + 24 + 2 * (page_size as u128)
            > usize::MAX as u128 {
            return false;
        }
        let mut b: usize = 0;
        while b < self.buckets.len()
            invariant
                b <= self.buckets@.len(),
                self.good(),
                self.shut() is None,
                page_size == self.pages.page_size,
                forall|c: int| #[trigger] self.has(c) && c < b ==> wide_fits(self.items(c), page_size as int),
            decreases self.buckets@.len() - b,
        {
            if self.buckets[b].live {
                assert(self.has(b as int));
                let sizes: Vec<(usize, usize)> = self.sizes(b);
                if !sizes_fit(&sizes, page_size, Ghost(widened(self.items(b as int), page_size as int))) {
                    return false;
                }
            }
            b = b + 1;
        }
        true
    }
}

} // verus!
