//! Elements of leaf and branch pages, and the pages that hold them.
//!
//! A page with `n` elements consists of the page header, a table of `n` fixed-size element
//! records, and the keys and values that the records point to.
use vstd::prelude::*;
use crate::bytes::{le32, le64, read_u32, read_u64, write_u32, write_u64};
use crate::page::{header_of, same_outside, set_page_count, set_page_flags, BRANCH_PAGE_ELEMENT_SIZE, BRANCH_PAGE_FLAG, LEAF_PAGE_ELEMENT_SIZE, LEAF_PAGE_FLAG, PAGE_HEADER_SIZE, PageHeader, Pgid};

verus! {

/// One element of a node: on a leaf a key with its value (or a nested bucket), on a branch a
/// child page with the smallest key below it.
#[derive(Debug)]
pub struct Inode {
    pub flags: u32,
    pub pgid: Pgid,
    pub key: Vec<u8>,
    pub value: Vec<u8>,
}

/// What an [`Inode`] holds.
#[verifier::ext_equal]
pub struct InodeV {
    pub flags: u32,
    pub pgid: Pgid,
    pub key: Seq<u8>,
    pub value: Seq<u8>,
}

impl View for Inode {
    type V = InodeV;

    open spec fn view(&self) -> InodeV {
        InodeV { flags: self.flags, pgid: self.pgid, key: self.key@, value: self.value@ }
    }
}

impl Clone for Inode {
    fn clone(&self) -> (c: Self)
        ensures
            c@ == self@,
    {
        let c = Inode {
            flags: self.flags,
            pgid: self.pgid,
            key: self.key.clone(),
            value: self.value.clone(),
        };
        assert(c.key@ =~= self.key@);
        assert(c.value@ =~= self.value@);
        c
    }
}

impl Default for Inode {
    fn default() -> (i: Self)
        ensures
            i@ == (InodeV { flags: 0, pgid: 0, key: Seq::empty(), value: Seq::empty() }),
    {
        Inode { flags: 0, pgid: 0, key: Vec::new(), value: Vec::new() }
    }
}

/// What a list of elements holds.
pub open spec fn views(s: Seq<Inode>) -> Seq<InodeV> {
    Seq::new(s.len(), |i: int| s[i]@)
}

/// Where the record of element `i` starts.
pub open spec fn elem_off(i: int) -> int {
    16 + 16 * i
}

/// Element `i` of a leaf page lies inside the page.
pub open spec fn leaf_ok(page: Seq<u8>, i: int) -> bool {
    let off = elem_off(i);
    &&& 0 <= i
    &&& off + 16 <= page.len()
    &&& off + le32(page, off + 4) + le32(page, off + 8) + le32(page, off + 12) <= page.len()
}

/// Element `i` of a leaf page.
pub open spec fn leaf_elem(page: Seq<u8>, i: int) -> InodeV {
    let off = elem_off(i);
    let key_off = off + le32(page, off + 4);
    let val_off = key_off + le32(page, off + 8);
    InodeV {
        flags: le32(page, off),
        pgid: 0,
        key: page.subrange(key_off, val_off),
        value: page.subrange(val_off, val_off + le32(page, off + 12)),
    }
}

/// Element `i` of a branch page lies inside the page.
pub open spec fn branch_ok(page: Seq<u8>, i: int) -> bool {
    let off = elem_off(i);
    &&& 0 <= i
    &&& off + 16 <= page.len()
    &&& off + le32(page, off) + le32(page, off + 4) <= page.len()
}

/// Element `i` of a branch page.
pub open spec fn branch_elem(page: Seq<u8>, i: int) -> InodeV {
    let off = elem_off(i);
    let key_off = off + le32(page, off);
    InodeV {
        flags: 0,
        pgid: le64(page, off + 8),
        key: page.subrange(key_off, key_off + le32(page, off + 4)),
        value: Seq::empty(),
    }
}

/// Element `i` lies inside the page. A page that is not a leaf is read as a branch.
pub open spec fn elem_ok(page: Seq<u8>, i: int) -> bool {
    if header_of(page).flags == LEAF_PAGE_FLAG {
        leaf_ok(page, i)
    } else {
        branch_ok(page, i)
    }
}

/// Element `i` of a page.
pub open spec fn elem_at(page: Seq<u8>, i: int) -> InodeV {
    if header_of(page).flags == LEAF_PAGE_FLAG {
        leaf_elem(page, i)
    } else {
        branch_elem(page, i)
    }
}

/// Every element of the page lies inside it.
pub open spec fn decodable(page: Seq<u8>) -> bool {
    &&& page.len() >= 16
    &&& forall|i: int| 0 <= i < header_of(page).count ==> #[trigger] elem_ok(page, i)
}

/// The elements of a page.
pub open spec fn decode(page: Seq<u8>) -> Seq<InodeV> {
    Seq::new(header_of(page).count as nat, |i: int| elem_at(page, i))
}

/// Leaf element at `index`: its flags, key and value.
pub fn leaf_at(page: &[u8], index: usize) -> (r: (u32, &[u8], &[u8]))
    requires
        leaf_ok(page@, index as int),
    ensures
        r.0 == leaf_elem(page@, index as int).flags,
        r.1@ == leaf_elem(page@, index as int).key,
        r.2@ == leaf_elem(page@, index as int).value,
{
    assert(elem_off(index as int) + 16 <= page.len());
    let off: usize = PAGE_HEADER_SIZE + index * LEAF_PAGE_ELEMENT_SIZE;
    let flags: u32 = read_u32(page, off);
    let pos: usize = read_u32(page, off + 4) as usize;
    let ksize: usize = read_u32(page, off + 8) as usize;
    let vsize: usize = read_u32(page, off + 12) as usize;
    let key_off: usize = off + pos;
    (flags, &page[key_off..key_off + ksize], &page[key_off + ksize..key_off + ksize + vsize])
}

/// Branch element at `index`: the child page and its key.
pub fn branch_at(page: &[u8], index: usize) -> (r: (Pgid, &[u8]))
    requires
        branch_ok(page@, index as int),
    ensures
        r.0 == branch_elem(page@, index as int).pgid,
        r.1@ == branch_elem(page@, index as int).key,
{
    assert(elem_off(index as int) + 16 <= page.len());
    let off: usize = PAGE_HEADER_SIZE + index * BRANCH_PAGE_ELEMENT_SIZE;
    let pos: usize = read_u32(page, off) as usize;
    let ksize: usize = read_u32(page, off + 4) as usize;
    let pgid: u64 = read_u64(page, off + 8);
    let key_off: usize = off + pos;
    (pgid, &page[key_off..key_off + ksize])
}

/// The child page of the branch element at `index`.
pub fn branch_pgid(page: &[u8], index: usize) -> (pgid: Pgid)
    requires
        elem_off(index as int) + 16 <= page@.len(),
    ensures
        pgid == branch_elem(page@, index as int).pgid,
{
    assert(elem_off(index as int) + 16 <= page.len());
    let off: usize = PAGE_HEADER_SIZE + index * BRANCH_PAGE_ELEMENT_SIZE;
    read_u64(page, off + 8)
}

/// Copies the elements out of a page.
pub fn read_inodes(page: &[u8]) -> (inodes: Vec<Inode>)
    requires
        decodable(page@),
    ensures
        views(inodes@) == decode(page@),
{
    let hdr = PageHeader::read(page);
    let count: usize = hdr.count as usize;
    let mut inodes: Vec<Inode> = Vec::with_capacity(count);
    let mut i: usize = 0;
    while i < count
        invariant
            decodable(page@),
            hdr == header_of(page@),
            count == hdr.count,
            i <= count,
            inodes@.len() == i,
            forall|j: int| 0 <= j < i ==> #[trigger] inodes@[j]@ == decode(page@)[j],
        decreases count - i,
    {
        assert(elem_ok(page@, i as int));
        if hdr.is_leaf() {
            let (flags, key, value) = leaf_at(page, i);
            inodes.push(
                Inode {
                    flags,
                    pgid: 0,
                    key: vstd::slice::slice_to_vec(key),
                    value: vstd::slice::slice_to_vec(value),
                },
            );
        } else {
            let (pgid, key) = branch_at(page, i);
            inodes.push(
                Inode { flags: 0, pgid, key: vstd::slice::slice_to_vec(key), value: Vec::new() },
            );
            assert(inodes@[i as int].value@ =~= Seq::<u8>::empty());
        }
        assert(inodes@[i as int]@ == decode(page@)[i as int]);
        i = i + 1;
    }
    assert(views(inodes@) =~= decode(page@));
    inodes
}

/// The number of bytes that the keys and values of `inodes` take.
pub open spec fn data_len(inodes: Seq<InodeV>) -> nat
    decreases inodes.len(),
{
    if inodes.len() == 0 {
        0
    } else {
        data_len(inodes.drop_last()) + inodes.last().key.len() + inodes.last().value.len()
    }
}

/// The number of bytes that a page with these elements takes.
pub open spec fn page_len(inodes: Seq<InodeV>) -> int {
    16 + 16 * (inodes.len() as int) + data_len(inodes)
}

/// Where the key of element `i` is written.
pub open spec fn data_off(inodes: Seq<InodeV>, i: int) -> int {
    16 + 16 * (inodes.len() as int) + data_len(inodes.take(i))
}

/// The data of element `i` is followed by that of the next one.
pub proof fn lemma_data_off_next(inodes: Seq<InodeV>, i: int)
    requires
        0 <= i < inodes.len(),
    ensures
        data_off(inodes, i + 1) == data_off(inodes, i) + inodes[i].key.len() + inodes[i].value.len(),
{
    assert(inodes.take(i + 1).drop_last() =~= inodes.take(i));
}

/// The data areas of the elements follow each other in order.
pub proof fn lemma_data_off_mono(inodes: Seq<InodeV>, i: int, j: int)
    requires
        0 <= i <= j <= inodes.len(),
    ensures
        data_off(inodes, i) <= data_off(inodes, j) <= page_len(inodes),
        data_off(inodes, 0) == 16 + 16 * inodes.len(),
        data_off(inodes, inodes.len() as int) == page_len(inodes),
    decreases inodes.len() - i,
{
    assert(inodes.take(inodes.len() as int) =~= inodes);
    assert(inodes.take(0) =~= Seq::<InodeV>::empty());
    if i < j {
        lemma_data_off_next(inodes, i);
        lemma_data_off_mono(inodes, i + 1, j);
    } else if i < inodes.len() {
        lemma_data_off_next(inodes, i);
        lemma_data_off_mono(inodes, i + 1, i + 1);
    }
}

/// The serialized size of `inodes` on a leaf or branch page.
pub fn inodes_size(is_leaf: bool, inodes: &[Inode]) -> (size: usize)
    requires
        page_len(views(inodes@)) <= usize::MAX,
    ensures
        size == page_len(views(inodes@)),
{
    let elsz: usize = if is_leaf {
        LEAF_PAGE_ELEMENT_SIZE
    } else {
        BRANCH_PAGE_ELEMENT_SIZE
    };
    let ghost v = views(inodes@);
    let mut sz: usize = PAGE_HEADER_SIZE;
    let n: usize = inodes.len();
    let mut i: usize = 0;
    assert(v.take(0) =~= Seq::<InodeV>::empty());
    while i < n
        invariant
            elsz == 16,
            v == views(inodes@),
            n == inodes@.len(),
            i <= n,
            page_len(v) <= usize::MAX,
            sz == data_off(v, i as int) - 16 * (n - i),
        decreases n - i,
    {
        proof {
            lemma_data_off_next(v, i as int);
            lemma_data_off_mono(v, i + 1, n as int);
            assert(inodes@[i as int]@ == v[i as int]);
        }
        sz = sz + (elsz + inodes[i].key.len() + inodes[i].value.len());
        i = i + 1;
    }
    proof {
        lemma_data_off_mono(v, n as int, n as int);
    }
    sz
}

/// The record and the data of element `i` stand where the layout puts them.
pub open spec fn elem_written(page: Seq<u8>, is_leaf: bool, inodes: Seq<InodeV>, i: int) -> bool {
    let off = elem_off(i);
    let at = data_off(inodes, i);
    let e = inodes[i];
    &&& if is_leaf {
        &&& le32(page, off) == e.flags
        &&& le32(page, off + 4) == (at - off) as u32
        &&& le32(page, off + 8) == e.key.len() as u32
        &&& le32(page, off + 12) == e.value.len() as u32
    } else {
        &&& le32(page, off) == (at - off) as u32
        &&& le32(page, off + 4) == e.key.len() as u32
        &&& le64(page, off + 8) == e.pgid
    }
    &&& page.subrange(at, at + e.key.len()) == e.key
    &&& page.subrange(at + e.key.len(), at + e.key.len() + e.value.len()) == e.value
}

/// `page` is what writing `inodes` into the page `before` gives: the header's flags and count,
/// every record, every key and value. All other bytes are those of `before`.
pub open spec fn written(before: Seq<u8>, page: Seq<u8>, is_leaf: bool, inodes: Seq<InodeV>) -> bool {
    &&& page.len() == before.len()
    &&& page.len() >= 16
    &&& header_of(page) == (PageHeader {
        flags: if is_leaf { LEAF_PAGE_FLAG } else { BRANCH_PAGE_FLAG },
        count: inodes.len() as u16,
        ..header_of(before)
    })
    &&& inodes.len() > 0 ==> page_len(inodes) <= page.len()
    &&& forall|i: int| 0 <= i < inodes.len() ==> #[trigger] elem_written(page, is_leaf, inodes, i)
    &&& forall|i: int| page_len(inodes) <= i < page.len() ==> #[trigger] page[i] == before[i]
}

/// Copies `src` into `buf` at `off`.
pub fn copy_into(buf: &mut [u8], off: usize, src: &[u8])
    requires
        off + src@.len() <= old(buf)@.len(),
    ensures
        same_outside(old(buf)@, final(buf)@, off as int, off + src@.len()),
        final(buf)@.subrange(off as int, off + src@.len()) == src@,
{
    let n: usize = src.len();
    let mut i: usize = 0;
    while i < n
        invariant
            n == src@.len(),
            i <= n,
            off + n <= buf@.len(),
            buf@.len() == old(buf)@.len(),
            same_outside(old(buf)@, buf@, off as int, off + i),
            forall|k: int| off <= k < off + i ==> #[trigger] buf@[k] == src@[k - off],
        decreases n - i,
    {
        assert(off + n <= buf.len());
        buf[off + i] = src[i];
        i = i + 1;
    }
    assert(buf@.subrange(off as int, off + n) =~= src@);
}

proof fn lemma_elem_written_frame(
    p: Seq<u8>,
    q: Seq<u8>,
    is_leaf: bool,
    inodes: Seq<InodeV>,
    i: int,
)
    requires
        elem_written(p, is_leaf, inodes, i),
        p.len() == q.len(),
        0 <= i < inodes.len(),
        page_len(inodes) <= p.len(),
        forall|k: int| elem_off(i) <= k < elem_off(i) + 16 ==> p[k] == q[k],
        forall|k: int| data_off(inodes, i) <= k < data_off(inodes, i + 1) ==> p[k] == q[k],
    ensures
        elem_written(q, is_leaf, inodes, i),
{
    let off = elem_off(i);
    let at = data_off(inodes, i);
    let e = inodes[i];
    lemma_data_off_next(inodes, i);
    lemma_data_off_mono(inodes, 0, i);
    lemma_data_off_mono(inodes, i + 1, inodes.len() as int);
    assert(p.subrange(at, at + e.key.len()) =~= q.subrange(at, at + e.key.len()));
    assert(p.subrange(at + e.key.len(), at + e.key.len() + e.value.len()) =~= q.subrange(
        at + e.key.len(),
        at + e.key.len() + e.value.len(),
    ));
}

/// Writes one element: its record at `elem`, its key and value at `off`.
fn write_elem(page: &mut [u8], is_leaf: bool, elem: usize, off: usize, pos: u32, inode: &Inode)
    requires
        16 <= elem,
        elem + 16 <= off,
        off + inode.key@.len() + inode.value@.len() <= old(page)@.len(),
    ensures
        final(page)@.len() == old(page)@.len(),
        forall|i: int|
            0 <= i < final(page)@.len() && !(elem <= i < elem + 16) && !(off <= i < off
                + inode.key@.len() + inode.value@.len()) ==> #[trigger] final(page)@[i] == old(
                page,
            )@[i],
        is_leaf ==> {
            &&& le32(final(page)@, elem as int) == inode.flags
            &&& le32(final(page)@, elem + 4) == pos
            &&& le32(final(page)@, elem + 8) == inode.key@.len() as u32
            &&& le32(final(page)@, elem + 12) == inode.value@.len() as u32
        },
        !is_leaf ==> {
            &&& le32(final(page)@, elem as int) == pos
            &&& le32(final(page)@, elem + 4) == inode.key@.len() as u32
            &&& le64(final(page)@, elem + 8) == inode.pgid
        },
        final(page)@.subrange(off as int, off + inode.key@.len()) == inode.key@,
        final(page)@.subrange(
            off + inode.key@.len(),
            off + inode.key@.len() + inode.value@.len(),
        ) == inode.value@,
{
    assert(page@.len() == page.len());
    if is_leaf {
        write_u32(page, elem, inode.flags);
        write_u32(page, elem + 4, pos);
        write_u32(page, elem + 8, inode.key.len() as u32);
        write_u32(page, elem + 12, inode.value.len() as u32);
    } else {
        write_u32(page, elem, pos);
        write_u32(page, elem + 4, inode.key.len() as u32);
        write_u64(page, elem + 8, inode.pgid);
    }
    copy_into(page, off, inode.key.as_slice());
    let ghost p2 = page@;
    let mid: usize = off + inode.key.len();
    copy_into(page, mid, inode.value.as_slice());
    assert(page@.subrange(off as int, off + inode.key@.len()) =~= p2.subrange(
        off as int,
        off + inode.key@.len(),
    ));
}

/// Writes the elements of a node into `page`.
pub fn write_inodes(page: &mut [u8], is_leaf: bool, inodes: &[Inode])
    requires
        old(page)@.len() >= 16,
        inodes@.len() < 0xFFFF,
        inodes@.len() > 0 ==> page_len(views(inodes@)) <= old(page)@.len(),
        forall|i: int| 0 <= i < inodes@.len() ==> (#[trigger] inodes@[i]).key@.len() > 0,
        !is_leaf ==> forall|i: int|
            0 <= i < inodes@.len() ==> (#[trigger] inodes@[i]).pgid != header_of(old(page)@).id,
    ensures
        written(old(page)@, final(page)@, is_leaf, views(inodes@)),
{
    let ghost v = views(inodes@);
    let ghost before = page@;
    let flags: u16 = if is_leaf {
        LEAF_PAGE_FLAG
    } else {
        BRANCH_PAGE_FLAG
    };
    let elem_size: usize = if is_leaf {
        LEAF_PAGE_ELEMENT_SIZE
    } else {
        BRANCH_PAGE_ELEMENT_SIZE
    };
    set_page_flags(page, flags);
    set_page_count(page, inodes.len() as u16);
    if inodes.len() == 0 {
        return;
    }
    let n: usize = inodes.len();
    let mut off: usize = PAGE_HEADER_SIZE + elem_size * n;
    let mut i: usize = 0;
    proof {
        lemma_data_off_mono(v, 0, n as int);
    }
    while i < n
        invariant
            elem_size == 16,
            v == views(inodes@),
            n == inodes@.len(),
            n < 0xFFFF,
            i <= n,
            page@.len() == before.len(),
            page_len(v) <= page@.len(),
            off == data_off(v, i as int),
            off <= page_len(v),
            header_of(page@) == (PageHeader { flags: flags, count: n as u16, ..header_of(before) }),
            forall|j: int| 0 <= j < i ==> #[trigger] elem_written(page@, is_leaf, v, j),
            forall|j: int| page_len(v) <= j < page@.len() ==> #[trigger] page@[j] == before[j],
        decreases n - i,
    {
        let ghost p0 = page@;
        let inode: &Inode = &inodes[i];
        let elem: usize = PAGE_HEADER_SIZE + i * elem_size;
        proof {
            assert(inodes@[i as int]@ == v[i as int]);
            lemma_data_off_next(v, i as int);
            lemma_data_off_mono(v, 0, i as int);
            lemma_data_off_mono(v, i + 1, n as int);
        }
        assert(page@.len() == page.len());
        let pos: u32 = (off - elem) as u32;
        write_elem(page, is_leaf, elem, off, pos, inode);
        let mid: usize = off + inode.key.len();
        proof {
            let p3 = page@;
            assert(elem_written(p3, is_leaf, v, i as int));
            assert forall|j: int| 0 <= j < i implies #[trigger] elem_written(p3, is_leaf, v, j) by {
                lemma_data_off_mono(v, 0, j);
                lemma_data_off_mono(v, j + 1, i as int);
                lemma_elem_written_frame(p0, p3, is_leaf, v, j);
            }
        }
        off = mid + inode.value.len();
        i = i + 1;
    }
    proof {
        lemma_data_off_mono(v, n as int, n as int);
    }
}

/// What a page stores of element `i` fits its fields: how far from its record the key is, and how
/// long the key and the value are.
pub open spec fn storable_at(inodes: Seq<InodeV>, i: int) -> bool {
    &&& data_off(inodes, i) - elem_off(i) <= u32::MAX
    &&& inodes[i].key.len() <= u32::MAX
    &&& inodes[i].value.len() <= u32::MAX
}

/// What a page stores of its elements fits.
pub open spec fn storable(inodes: Seq<InodeV>) -> bool {
    forall|i: int| 0 <= i < inodes.len() ==> #[trigger] storable_at(inodes, i)
}

/// On a page that is not too long everything fits.
pub proof fn lemma_storable(inodes: Seq<InodeV>)
    requires
        page_len(inodes) <= u32::MAX,
    ensures
        storable(inodes),
{
    assert forall|i: int| 0 <= i < inodes.len() implies #[trigger] storable_at(inodes, i) by {
        lemma_data_off_next(inodes, i);
        lemma_data_off_mono(inodes, 0, i);
        lemma_data_off_mono(inodes, i + 1, inodes.len() as int);
    }
}

/// Elements that can be stored take no more than their fields can say.
pub proof fn lemma_storable_len(inodes: Seq<InodeV>, k: int)
    requires
        storable(inodes),
        0 <= k <= inodes.len(),
    ensures
        data_len(inodes.take(k)) <= 2 * u32::MAX * k,
    decreases k,
{
    if k > 0 {
        lemma_storable_len(inodes, k - 1);
        assert(storable_at(inodes, k - 1));
        assert(inodes.take(k).drop_last() =~= inodes.take(k - 1));
        assert(inodes.take(k).last() == inodes[k - 1]);
    }
}

/// A page that was written reads back as the elements that were written into it.
pub proof fn lemma_written_decodes(
    before: Seq<u8>,
    page: Seq<u8>,
    is_leaf: bool,
    inodes: Seq<InodeV>,
)
    requires
        written(before, page, is_leaf, inodes),
        inodes.len() < 0xFFFF,
        storable(inodes),
        is_leaf ==> forall|i: int| 0 <= i < inodes.len() ==> (#[trigger] inodes[i]).pgid == 0,
        !is_leaf ==> forall|i: int|
            0 <= i < inodes.len() ==> (#[trigger] inodes[i]).flags == 0 && inodes[i].value.len() == 0,
    ensures
        decodable(page),
        decode(page) == inodes,
{
    assert forall|i: int| 0 <= i < inodes.len() implies #[trigger] elem_ok(page, i) && elem_at(
        page,
        i,
    ) == inodes[i] by {
        assert(elem_written(page, is_leaf, inodes, i));
        assert(storable_at(inodes, i));
        lemma_data_off_next(inodes, i);
        lemma_data_off_mono(inodes, 0, i);
        lemma_data_off_mono(inodes, i + 1, inodes.len() as int);
        assert(elem_at(page, i) =~= inodes[i]);
    }
    assert forall|i: int| 0 <= i < inodes.len() implies decode(page)[i] == inodes[i] by {
        assert(elem_ok(page, i));
    }
    assert(decode(page) =~= inodes);
}

} // verus!
