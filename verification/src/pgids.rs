//! Lists of page ids, and the freelist page that stores one.
use vstd::prelude::*;
use crate::bytes::{le64, read_u64, write_u64};
use crate::page::{header_of, set_page_count, set_page_flags, FREELIST_PAGE_FLAG, PAGE_HEADER_SIZE, PageHeader, Pgid};

verus! {

/// The ids never decrease.
pub open spec fn sorted(s: Seq<Pgid>) -> bool {
    forall|i: int, j: int| 0 <= i <= j < s.len() ==> s[i] <= s[j]
}

/// The ids increase from each to the next.
pub open spec fn strictly_sorted(s: Seq<Pgid>) -> bool {
    forall|i: int, j: int| 0 <= i < j < s.len() ==> s[i] < s[j]
}

/// The merge of two lists: the smaller head first, that of `b` when the heads are equal.
pub open spec fn merge(a: Seq<Pgid>, b: Seq<Pgid>) -> Seq<Pgid>
    decreases a.len() + b.len(),
{
    if a.len() == 0 {
        b
    } else if b.len() == 0 {
        a
    } else if a[0] < b[0] {
        seq![a[0]] + merge(a.skip(1), b)
    } else {
        seq![b[0]] + merge(a, b.skip(1))
    }
}

/// Merges two lists of page ids.
pub fn merge_pgids(a: &[Pgid], b: &[Pgid]) -> (out: Vec<Pgid>)
    ensures
        out@ == merge(a@, b@),
{
    let mut out: Vec<Pgid> = Vec::new();
    let mut i: usize = 0;
    let mut j: usize = 0;
    assert(a@.skip(0) =~= a@);
    assert(b@.skip(0) =~= b@);
    assert(out@ + merge(a@, b@) =~= merge(a@, b@));
    while i < a.len() && j < b.len()
        invariant
            i <= a@.len(),
            j <= b@.len(),
            out@ + merge(a@.skip(i as int), b@.skip(j as int)) == merge(a@, b@),
        decreases a@.len() + b@.len() - i - j,
    {
        let ghost (x, y) = (a@.skip(i as int), b@.skip(j as int));
        assert(x.skip(1) =~= a@.skip(i + 1));
        assert(y.skip(1) =~= b@.skip(j + 1));
        let ghost before = out@;
        if a[i] < b[j] {
            out.push(a[i]);
            assert(before + (seq![x[0]] + merge(x.skip(1), y)) =~= out@ + merge(x.skip(1), y));
            i = i + 1;
        } else {
            out.push(b[j]);
            assert(before + (seq![y[0]] + merge(x, y.skip(1))) =~= out@ + merge(x, y.skip(1)));
            j = j + 1;
        }
    }
    let ghost before = out@;
    out.extend_from_slice(&a[i..a.len()]);
    out.extend_from_slice(&b[j..b.len()]);
    assert(out@ =~= before + (a@.skip(i as int) + b@.skip(j as int)));
    assert(a@.skip(i as int) + b@.skip(j as int) =~= merge(a@.skip(i as int), b@.skip(j as int)));
    out
}

/// A merge holds the elements of both lists, each as often as they do together.
pub proof fn lemma_merge_multiset(a: Seq<Pgid>, b: Seq<Pgid>)
    ensures
        merge(a, b).to_multiset() =~= a.to_multiset().add(b.to_multiset()),
        merge(a, b).len() == a.len() + b.len(),
    decreases a.len() + b.len(),
{
    broadcast use vstd::seq_lib::group_to_multiset_ensures;

    if a.len() == 0 {
        assert(a =~= Seq::<Pgid>::empty());
    } else if b.len() == 0 {
        assert(b =~= Seq::<Pgid>::empty());
    } else if a[0] < b[0] {
        lemma_merge_multiset(a.skip(1), b);
        lemma_multiset_cons(a[0], a.skip(1));
        assert(seq![a[0]] + a.skip(1) =~= a);
        lemma_multiset_cons(a[0], merge(a.skip(1), b));
    } else {
        lemma_merge_multiset(a, b.skip(1));
        lemma_multiset_cons(b[0], b.skip(1));
        assert(seq![b[0]] + b.skip(1) =~= b);
        lemma_multiset_cons(b[0], merge(a, b.skip(1)));
    }
}

proof fn lemma_multiset_cons(x: Pgid, s: Seq<Pgid>)
    ensures
        (seq![x] + s).to_multiset() =~= s.to_multiset().insert(x),
{
    broadcast use vstd::seq_lib::group_to_multiset_ensures;

    vstd::seq_lib::lemma_multiset_commutative(seq![x], s);
    assert(seq![x] =~= Seq::<Pgid>::empty().push(x));
}

/// An id occurs in a merge exactly if it occurs in one of the lists.
pub proof fn lemma_merge_contains(a: Seq<Pgid>, b: Seq<Pgid>)
    ensures
        forall|x: Pgid| #[trigger] merge(a, b).contains(x) <==> a.contains(x) || b.contains(x),
{
    broadcast use vstd::seq_lib::group_to_multiset_ensures;

    lemma_merge_multiset(a, b);
    assert forall|x: Pgid| #[trigger] merge(a, b).contains(x) <==> a.contains(x) || b.contains(x) by {
        assert(merge(a, b).contains(x) <==> merge(a, b).to_multiset().count(x) > 0);
        assert(a.contains(x) <==> a.to_multiset().count(x) > 0);
        assert(b.contains(x) <==> b.to_multiset().count(x) > 0);
    }
}

/// Merging sorted lists gives a sorted list.
pub proof fn lemma_merge_sorted(a: Seq<Pgid>, b: Seq<Pgid>)
    requires
        sorted(a),
        sorted(b),
    ensures
        sorted(merge(a, b)),
    decreases a.len() + b.len(),
{
    if a.len() == 0 || b.len() == 0 {
    } else {
        let (x, rest) = if a[0] < b[0] {
            (a[0], merge(a.skip(1), b))
        } else {
            (b[0], merge(a, b.skip(1)))
        };
        if a[0] < b[0] {
            lemma_merge_sorted(a.skip(1), b);
            lemma_merge_contains(a.skip(1), b);
        } else {
            lemma_merge_sorted(a, b.skip(1));
            lemma_merge_contains(a, b.skip(1));
        }
        assert forall|k: int| 0 <= k < rest.len() implies x <= rest[k] by {
            assert(rest.contains(rest[k]));
            if a.skip(1).contains(rest[k]) {
                let m = a.skip(1).index_of(rest[k]);
                assert(a[m + 1] == rest[k]);
            } else if b.skip(1).contains(rest[k]) {
                let m = b.skip(1).index_of(rest[k]);
                assert(b[m + 1] == rest[k]);
            } else if a.contains(rest[k]) {
                let m = a.index_of(rest[k]);
                assert(a[m] == rest[k]);
            } else {
                let m = b.index_of(rest[k]);
                assert(b[m] == rest[k]);
            }
        }
    }
}

/// A sorted list in which nothing occurs twice is strictly sorted.
pub proof fn lemma_sorted_distinct(s: Seq<Pgid>)
    requires
        sorted(s),
        s.no_duplicates(),
    ensures
        strictly_sorted(s),
{
}

/// Merging two strictly sorted lists without a common id gives a strictly sorted list.
pub proof fn lemma_merge_strict(a: Seq<Pgid>, b: Seq<Pgid>)
    requires
        strictly_sorted(a),
        strictly_sorted(b),
        forall|x: Pgid| a.contains(x) ==> !b.contains(x),
    ensures
        strictly_sorted(merge(a, b)),
{
    broadcast use vstd::seq_lib::group_to_multiset_ensures;

    lemma_merge_sorted(a, b);
    lemma_merge_multiset(a, b);
    let m = merge(a, b);
    a.lemma_multiset_has_no_duplicates();
    b.lemma_multiset_has_no_duplicates();
    assert forall|x: Pgid| m.to_multiset().contains(x) implies m.to_multiset().count(x) == 1 by {
        assert(a.contains(x) <==> a.to_multiset().count(x) > 0);
        assert(b.contains(x) <==> b.to_multiset().count(x) > 0);
        assert(a.to_multiset().contains(x) ==> a.to_multiset().count(x) == 1);
        assert(b.to_multiset().contains(x) ==> b.to_multiset().count(x) == 1);
    }
    m.lemma_multiset_has_no_duplicates_conv();
}

/// Sorts a list of page ids.
pub fn sort_pgids(ids: &[Pgid]) -> (out: Vec<Pgid>)
    ensures
        sorted(out@),
        out@.to_multiset() == ids@.to_multiset(),
        out@.len() == ids@.len(),
    decreases ids@.len(),
{
    let n: usize = ids.len();
    if n <= 1 {
        let out: Vec<Pgid> = vstd::slice::slice_to_vec(ids);
        return out;
    }
    let mid: usize = n / 2;
    let left: Vec<Pgid> = sort_pgids(&ids[0..mid]);
    let right: Vec<Pgid> = sort_pgids(&ids[mid..n]);
    let out: Vec<Pgid> = merge_pgids(left.as_slice(), right.as_slice());
    proof {
        lemma_merge_sorted(left@, right@);
        lemma_merge_multiset(left@, right@);
        vstd::seq_lib::lemma_multiset_commutative(
            ids@.subrange(0, mid as int),
            ids@.subrange(mid as int, n as int),
        );
        assert(ids@ =~= ids@.subrange(0, mid as int) + ids@.subrange(mid as int, n as int));
    }
    out
}

/// Two lists with the same elements contain the same ids, and one has no id twice if the other
/// has none.
pub proof fn lemma_same_elements(a: Seq<Pgid>, b: Seq<Pgid>)
    requires
        a.to_multiset() == b.to_multiset(),
    ensures
        forall|x: Pgid| a.contains(x) <==> b.contains(x),
        a.no_duplicates() <==> b.no_duplicates(),
        a.len() == b.len(),
{
    broadcast use vstd::seq_lib::group_to_multiset_ensures;

    assert forall|x: Pgid| a.contains(x) <==> b.contains(x) by {
        assert(a.contains(x) <==> a.to_multiset().count(x) > 0);
        assert(b.contains(x) <==> b.to_multiset().count(x) > 0);
    }
    if a.no_duplicates() {
        a.lemma_multiset_has_no_duplicates();
        b.lemma_multiset_has_no_duplicates_conv();
    }
    if b.no_duplicates() {
        b.lemma_multiset_has_no_duplicates();
        a.lemma_multiset_has_no_duplicates_conv();
    }
    assert(a.len() == a.to_multiset().len());
    assert(b.len() == b.to_multiset().len());
}

/// The number of ids on a freelist page. A count that does not fit the header's field stands in
/// front of the ids.
pub open spec fn freelist_count(page: Seq<u8>) -> int {
    if header_of(page).count == 0xFFFF {
        le64(page, 16) as int
    } else {
        header_of(page).count as int
    }
}

/// Where the ids of a freelist page start.
pub open spec fn freelist_start(page: Seq<u8>) -> int {
    if header_of(page).count == 0xFFFF {
        24
    } else {
        16
    }
}

/// The ids of a freelist page all lie inside the page.
pub open spec fn freelist_ok(page: Seq<u8>) -> bool {
    &&& page.len() >= 16
    &&& header_of(page).flags == FREELIST_PAGE_FLAG
    &&& header_of(page).count == 0xFFFF ==> page.len() >= 24
    &&& freelist_start(page) + 8 * freelist_count(page) <= page.len()
}

/// The ids on a freelist page.
pub open spec fn freelist_seq(page: Seq<u8>) -> Seq<Pgid> {
    Seq::new(
        freelist_count(page) as nat,
        |i: int| le64(page, freelist_start(page) + 8 * i),
    )
}

/// Reads the ids of a freelist page.
pub fn freelist_ids(page: &[u8]) -> (ids: Vec<Pgid>)
    requires
        freelist_ok(page@),
    ensures
        ids@ == freelist_seq(page@),
{
    let hdr = PageHeader::read(page);
    assert(page@.len() == page.len());
    let mut idx: usize = 0;
    let mut count: usize = hdr.count as usize;
    if count == 0xFFFF {
        idx = 1;
        count = read_u64(page, PAGE_HEADER_SIZE) as usize;
    }
    let mut ids: Vec<Pgid> = Vec::with_capacity(count);
    let mut n: usize = 0;
    while n < count
        invariant
            n <= count,
            count == freelist_count(page@),
            16 + 8 * idx == freelist_start(page@),
            idx <= 1,
            freelist_ok(page@),
            page@.len() == page.len(),
            ids@.len() == n,
            forall|i: int| 0 <= i < n ==> #[trigger] ids@[i] == freelist_seq(page@)[i],
        decreases count - n,
    {
        let off: usize = PAGE_HEADER_SIZE + (idx + n) * 8;
        ids.push(read_u64(page, off));
        n = n + 1;
    }
    assert(ids@ =~= freelist_seq(page@));
    ids
}

/// The number of bytes that a freelist page with `n` ids takes.
pub open spec fn freelist_size(n: int) -> int {
    if n >= 0xFFFF {
        16 + 8 * (n + 1)
    } else {
        16 + 8 * n
    }
}

/// `page` is what writing the freelist `ids` into the page `before` gives.
pub open spec fn freelist_written(before: Seq<u8>, page: Seq<u8>, ids: Seq<Pgid>) -> bool {
    &&& page.len() == before.len()
    &&& freelist_ok(page)
    &&& freelist_seq(page) == ids
    &&& header_of(page) == (PageHeader {
        flags: FREELIST_PAGE_FLAG,
        count: if ids.len() >= 0xFFFF { 0xFFFF } else { ids.len() as u16 },
        ..header_of(before)
    })
    &&& forall|i: int|
        freelist_size(ids.len() as int) <= i < page.len() ==> #[trigger] page[i] == before[i]
}

/// Writes a freelist page.
pub fn write_freelist(page: &mut [u8], ids: &[Pgid])
    requires
        freelist_size(ids@.len() as int) <= old(page)@.len(),
    ensures
        freelist_written(old(page)@, final(page)@, ids@),
{
    let ghost before = page@;
    assert(page@.len() == page.len());
    set_page_flags(page, FREELIST_PAGE_FLAG);
    let l: usize = ids.len();
    let mut skip: usize = 0;
    if l < 0xFFFF {
        set_page_count(page, l as u16);
    } else {
        set_page_count(page, 0xFFFF);
        write_u64(page, PAGE_HEADER_SIZE, l as u64);
        skip = 1;
    }
    let mut i: usize = 0;
    while i < l
        invariant
            i <= l,
            l == ids@.len(),
            page@.len() == before.len(),
            page@.len() == page.len(),
            freelist_size(l as int) <= page@.len(),
            skip == (if l >= 0xFFFF { 1usize } else { 0usize }),
            header_of(page@) == (PageHeader {
                flags: FREELIST_PAGE_FLAG,
                count: if l >= 0xFFFF { 0xFFFF } else { l as u16 },
                ..header_of(before)
            }),
            skip == 1 ==> le64(page@, 16) == l,
            forall|j: int| 0 <= j < i ==> #[trigger] le64(page@, 16 + 8 * (skip + j)) == ids@[j],
            forall|j: int| freelist_size(l as int) <= j < page@.len() ==> #[trigger] page@[j] == before[j],
        decreases l - i,
    {
        let ghost p0 = page@;
        let off: usize = PAGE_HEADER_SIZE + (i + skip) * 8;
        write_u64(page, off, ids[i]);
        assert forall|j: int| 0 <= j < i implies #[trigger] le64(page@, 16 + 8 * (skip + j)) == ids@[j] by {
            assert(le64(p0, 16 + 8 * (skip + j)) == ids@[j]);
            crate::bytes::lemma_le_same(p0, page@, 16 + 8 * (skip + j), 8);
        }
        i = i + 1;
    }
    assert(freelist_count(page@) == l);
    assert forall|j: int| 0 <= j < l implies #[trigger] freelist_seq(page@)[j] == ids@[j] by {
        assert(le64(page@, 16 + 8 * (skip + j)) == ids@[j]);
    }
    assert(freelist_seq(page@) =~= ids@);
}

/// The number of bytes that a freelist page with `n` ids takes.
pub fn estimated_freelist_page_size(n: usize) -> (size: usize)
    requires
        freelist_size(n as int) <= usize::MAX,
    ensures
        size == freelist_size(n as int),
{
    let mut n: usize = n;
    if n >= 0xFFFF {
        n = n + 1;
    }
    PAGE_HEADER_SIZE + 8 * n
}

} // verus!
