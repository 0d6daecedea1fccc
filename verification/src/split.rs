//! How the elements of a node are distributed over pages.
use vstd::prelude::*;
use crate::balance::larger_than;
use crate::inode::{data_len, page_len, views, Inode, InodeV};
use crate::page::MIN_KEYS_PER_PAGE;

verus! {

/// From element `i` on, the first one that a page of `threshold` bytes has no room for, but that
/// at least three elements are left behind it.
pub open spec fn split_from(items: Seq<InodeV>, threshold: int, i: int) -> int
    decreases items.len() - i,
{
    if i + 1 >= items.len() - 2 || i >= 2 && page_len(items.take(i + 1)) > threshold {
        i
    } else {
        split_from(items, threshold, i + 1)
    }
}

/// Where a node is split in two. The first part gets at least two elements, more of them as long
/// as it stays within `threshold` bytes.
pub open spec fn split_pos(items: Seq<InodeV>, threshold: int) -> int {
    if items.len() <= 2 {
        0
    } else {
        split_from(items, threshold, 0)
    }
}

/// Whether a node is small enough for one page.
pub open spec fn one_page(items: Seq<InodeV>, page_size: int) -> bool {
    items.len() <= 4 || page_len(items) < page_size
}

/// The parts of a node, each of which gets a page.
pub open spec fn split_parts(items: Seq<InodeV>, page_size: int, threshold: int) -> Seq<Seq<InodeV>>
    decreases items.len(),
    when 0 <= threshold
    via split_parts_end
{
    if one_page(items, page_size) {
        seq![items]
    } else {
        let i = split_pos(items, threshold);
        seq![items.take(i)] + split_parts(items.skip(i), page_size, threshold)
    }
}

#[via_fn]
proof fn split_parts_end(items: Seq<InodeV>, page_size: int, threshold: int) {
    if !one_page(items, page_size) {
        lemma_split_pos(items, threshold);
    }
}

proof fn lemma_split_from(items: Seq<InodeV>, threshold: int, i: int)
    requires
        items.len() > 4,
        0 <= i <= items.len() - 3,
        i >= 3 ==> page_len(items.take(i)) <= threshold,
    ensures
        2 <= split_from(items, threshold, i) <= items.len() - 3,
        i <= split_from(items, threshold, i),
        split_from(items, threshold, i) >= 3 ==> page_len(items.take(split_from(items, threshold, i))) <= threshold,
    decreases items.len() - i,
{
    if i + 1 >= items.len() - 2 || i >= 2 && page_len(items.take(i + 1)) > threshold {
    } else {
        lemma_split_from(items, threshold, i + 1);
    }
}

/// The first part of a split has at least two elements, and only two where it is larger than
/// `threshold`; at least three are left.
pub proof fn lemma_split_pos(items: Seq<InodeV>, threshold: int)
    requires
        items.len() > 4,
    ensures
        2 <= split_pos(items, threshold) <= items.len() - 3,
        split_pos(items, threshold) >= 3 ==> page_len(items.take(split_pos(items, threshold))) <= threshold,
{
    lemma_split_from(items, threshold, 0);
}

/// The place at which a node is split.
pub fn split_index(inodes: &[Inode], threshold: usize) -> (index: usize)
    ensures
        index == split_pos(views(inodes@), threshold as int),
{
    let ghost v = views(inodes@);
    let n: usize = inodes.len();
    if n <= MIN_KEYS_PER_PAGE {
        return 0;
    }
    let limit: usize = n - MIN_KEYS_PER_PAGE;
    let mut left: usize = 0;
    let mut over: bool = true;
    if threshold >= 16 {
        left = threshold - 16;
        over = false;
    }
    let mut index: usize = 0;
    assert(v.take(0) =~= Seq::<InodeV>::empty());
    while index + 1 < limit
        invariant
            index < limit,
            limit == n - 2,
            n == inodes@.len(),
            v == views(inodes@),
            split_pos(v, threshold as int) == split_from(v, threshold as int, index as int),
            !over ==> threshold - left == 16 + 16 * index + data_len(v.take(index as int)),
            over ==> page_len(v.take(index as int)) > threshold,
        decreases limit - index,
    {
        let k: usize = inodes[index].key.len();
        let w: usize = inodes[index].value.len();
        proof {
            assert(v.take(index + 1).drop_last() =~= v.take(index as int));
            assert(v.take(index + 1).last() == inodes@[index as int]@);
        }
        if over || left < 16 || left - 16 < k || left - 16 - k < w {
            over = true;
        } else {
            left = left - 16 - k - w;
        }
        if index >= MIN_KEYS_PER_PAGE && over {
            return index;
        }
        index = index + 1;
    }
    index
}

/// Distributes the elements of a node over pages.
pub fn split_node(inodes: Vec<Inode>, page_size: usize, threshold: usize) -> (parts: Vec<Vec<Inode>>)
    requires
        page_size > 0,
    ensures
        parts@.len() == split_parts(views(inodes@), page_size as int, threshold as int).len(),
        forall|i: int|
            0 <= i < parts@.len() ==> views((#[trigger] parts@[i])@) == split_parts(
                views(inodes@),
                page_size as int,
                threshold as int,
            )[i],
{
    let ghost all = split_parts(views(inodes@), page_size as int, threshold as int);
    let mut parts: Vec<Vec<Inode>> = Vec::new();
    let mut rest: Vec<Inode> = inodes;
    proof {
        assert(all.skip(0) =~= all);
    }
    while rest.len() > 4 && larger_than(rest.as_slice(), page_size - 1)
        invariant
            page_size > 0,
            parts@.len() <= all.len(),
            forall|i: int| 0 <= i < parts@.len() ==> views((#[trigger] parts@[i])@) == all[i],
            all.skip(parts@.len() as int) == split_parts(views(rest@), page_size as int, threshold as int),
        decreases rest@.len(),
    {
        let ghost r0 = rest@;
        let ghost v0 = views(rest@);
        proof {
            lemma_split_pos(v0, threshold as int);
        }
        let index: usize = split_index(rest.as_slice(), threshold);
        let tail: Vec<Inode> = rest.split_off(index);
        proof {
            let more = split_parts(v0, page_size as int, threshold as int);
            let n = parts@.len() as int;
            assert(views(tail@) =~= v0.skip(index as int));
            assert(views(rest@) =~= v0.take(index as int));
            assert(more == seq![v0.take(index as int)] + split_parts(v0.skip(index as int), page_size as int, threshold as int));
            assert(all.skip(n)[0] == more[0]);
            assert(all[n] == more[0]);
            assert(all.skip(n + 1) =~= more.skip(1));
            assert(more.skip(1) =~= split_parts(v0.skip(index as int), page_size as int, threshold as int));
        }
        parts.push(rest);
        rest = tail;
    }
    proof {
        let n = parts@.len() as int;
        let more = split_parts(views(rest@), page_size as int, threshold as int);
        assert(one_page(views(rest@), page_size as int));
        assert(more =~= seq![views(rest@)]);
        assert(all.skip(n)[0] == more[0]);
        assert(all.skip(n).len() == 1);
    }
    parts.push(rest);
    parts
}

/// The parts are neither empty nor too large, and are the whole when put together.
pub open spec fn parts_ok(items: Seq<InodeV>, parts: Seq<Seq<InodeV>>, page_size: int) -> bool {
    &&& parts.len() >= 1
    &&& parts.flatten() == items
    &&& forall|i: int|
        0 <= i < parts.len() ==> (#[trigger] parts[i]).len() <= 4 || page_len(parts[i]) <= page_size
    &&& parts.len() > 1 ==> forall|i: int| 0 <= i < parts.len() ==> (#[trigger] parts[i]).len() >= 2
}

/// What splitting gives.
pub proof fn lemma_split_parts(items: Seq<InodeV>, page_size: int, threshold: int)
    requires
        0 <= threshold <= page_size,
    ensures
        parts_ok(items, split_parts(items, page_size, threshold), page_size),
        split_parts(items, page_size, threshold).len() == 1 ==> split_parts(items, page_size, threshold) == seq![items],
        split_parts(items, page_size, threshold).len() > 1 ==> items.len() > 2 * split_parts(
            items,
            page_size,
            threshold,
        ).len() - 1,
    decreases items.len(),
{
    let parts = split_parts(items, page_size, threshold);
    if one_page(items, page_size) {
        assert(parts == seq![items]);
        assert(parts.flatten() =~= items) by {
            assert(parts.drop_first() =~= Seq::<Seq<InodeV>>::empty());
            assert(parts.flatten() =~= parts.first() + parts.drop_first().flatten());
        }
    } else {
        lemma_split_pos(items, threshold);
        let i = split_pos(items, threshold);
        let more = split_parts(items.skip(i), page_size, threshold);
        lemma_split_parts(items.skip(i), page_size, threshold);
        assert(parts == seq![items.take(i)] + more);
        assert(parts.drop_first() =~= more);
        assert(parts.first() == items.take(i));
        assert(parts.flatten() =~= items.take(i) + items.skip(i));
        assert(items.take(i) + items.skip(i) =~= items);
        assert forall|j: int| 0 <= j < parts.len() implies (#[trigger] parts[j]).len() <= 4 || page_len(parts[j])
            <= page_size by {
            if j > 0 {
                assert(parts[j] == more[j - 1]);
            }
        }
        assert forall|j: int| 0 <= j < parts.len() implies (#[trigger] parts[j]).len() >= 2 by {
            if j > 0 {
                assert(parts[j] == more[j - 1]);
                if more.len() == 1 {
                    assert(more[0] == items.skip(i));
                }
            }
        }
    }
}

/// The part goes as far as it may.
proof fn lemma_split_far(items: Seq<InodeV>, threshold: int, i: int)
    requires
        items.len() > 4,
        0 <= i <= items.len() - 3,
    ensures
        ({
            let k = split_from(items, threshold, i);
            k == items.len() - 3 || page_len(items.take(k + 1)) > threshold
        }),
    decreases items.len() - i,
{
    if i + 1 >= items.len() - 2 || i >= 2 && page_len(items.take(i + 1)) > threshold {
    } else {
        lemma_split_far(items, threshold, i + 1);
    }
}

/// How a node is laid out on pages. It stays on one page if it has four elements or fewer or takes
/// less than a page. Otherwise each part but the last has two elements or more, more than two only
/// within `threshold` bytes, and could not have taken one more: with it the part would take more than
/// `threshold` bytes, or only two elements would be left for the last part. The last part has three
/// elements or more and is one that stays on a page.
pub proof fn lemma_split_full(items: Seq<InodeV>, page_size: int, threshold: int, j: int)
    requires
        0 <= threshold <= page_size,
    ensures
        ({
            let parts = split_parts(items, page_size, threshold);
            let n = parts.len() - 1;
            &&& parts.flatten() == items
            &&& n == 0 <==> items.len() <= 4 || page_len(items) < page_size
            &&& n > 0 ==> parts[n].len() >= 3
            &&& parts[n].len() <= 4 || page_len(parts[n]) < page_size
            &&& 0 <= j < n ==> {
                &&& parts[j].len() >= 2
                &&& parts[j].len() > 2 ==> page_len(parts[j]) <= threshold
                &&& page_len(parts[j].push(parts[j + 1][0])) > threshold || j == n - 1 && parts[n].len() == 3
            }
        }),
    decreases items.len(),
{
    let parts = split_parts(items, page_size, threshold);
    lemma_split_parts(items, page_size, threshold);
    if one_page(items, page_size) {
        assert(parts == seq![items]);
    } else {
        lemma_split_pos(items, threshold);
        let i = split_pos(items, threshold);
        let rest = items.skip(i);
        let more = split_parts(rest, page_size, threshold);
        lemma_split_parts(rest, page_size, threshold);
        lemma_split_far(items, threshold, 0);
        assert(parts == seq![items.take(i)] + more);
        lemma_split_full(rest, page_size, threshold, j - 1);
        assert(parts[parts.len() - 1] == more[more.len() - 1]);
        if 0 < j < parts.len() - 1 {
            assert(parts[j] == more[j - 1]);
            assert(parts[j + 1] == more[j]);
        }
        assert(more[0].len() > 0);
        assert(more.flatten() == more.first() + more.drop_first().flatten());
        assert(more[0][0] == rest[0]);
        assert(parts[0].push(parts[1][0]) =~= items.take(i + 1));
        if i == items.len() - 3 {
            assert(rest.len() == 3);
            assert(one_page(rest, page_size));
            assert(more == seq![rest]);
        }
    }
}

/// A page takes 16 bytes, and for each element 16 more and those of its key and its value.
pub proof fn lemma_page_room(items: Seq<InodeV>, e: InodeV)
    ensures
        page_len(Seq::empty()) == 16,
        page_len(items.push(e)) == page_len(items) + 16 + e.key.len() + e.value.len(),
{
    assert(items.push(e).drop_last() =~= items);
}

} // verus!
