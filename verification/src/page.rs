//! The on-disk page layout: page headers, bucket headers and meta pages.
//!
//! All multi-byte integers are little-endian.
use vstd::prelude::*;
use crate::bytes::{read_u16, read_u32, read_u64, write_u16, write_u32, write_u64};
use crate::error::{Error, Result};
use crate::text::push_hex_padded;

verus! {

/// A page id: pages are numbered from the start of the file.
pub type Pgid = u64;

/// A transaction id.
pub type Txid = u64;

pub const MAGIC: u32 = 0xED0C_DAED;

pub const VERSION: u32 = 2;

/// Stands in a meta page for "the freelist is not stored".
pub const PGID_NO_FREELIST: Pgid = 0xFFFF_FFFF_FFFF_FFFF;

pub const PAGE_HEADER_SIZE: usize = 16;

pub const BRANCH_PAGE_ELEMENT_SIZE: usize = 16;

pub const LEAF_PAGE_ELEMENT_SIZE: usize = 16;

pub const BUCKET_HEADER_SIZE: usize = 16;

pub const META_SIZE: usize = 64;

pub const META_CHECKSUM_LEN: usize = 56;

pub const BRANCH_PAGE_FLAG: u16 = 0x01;

pub const LEAF_PAGE_FLAG: u16 = 0x02;

pub const META_PAGE_FLAG: u16 = 0x04;

pub const FREELIST_PAGE_FLAG: u16 = 0x10;

/// Marks a leaf element whose value is a nested bucket.
pub const BUCKET_LEAF_FLAG: u32 = 0x01;

pub const MIN_KEYS_PER_PAGE: usize = 2;

pub const MAX_KEY_SIZE: usize = 32_768;

pub const MAX_VALUE_SIZE: usize = 0x7FFF_FFFE;

pub const MAX_MMAP_STEP: usize = 0x4000_0000;

pub const DEFAULT_MAX_BATCH_SIZE: usize = 1000;

pub const DEFAULT_MAX_BATCH_DELAY_MS: u64 = 10;

pub const DEFAULT_ALLOC_SIZE: usize = 0x100_0000;

const FNV_OFFSET: u64 = 0xcbf2_9ce4_8422_2325;

const FNV_PRIME: u64 = 0x0100_0000_01b3;

/// The FNV-1a hash of `data`, 64 bits wide.
pub open spec fn fnv1a(data: Seq<u8>) -> u64
    decreases data.len(),
{
    if data.len() == 0 {
        0xcbf2_9ce4_8422_2325
    } else {
        (((fnv1a(data.drop_last()) ^ (data.last() as u64)) * 0x0100_0000_01b3)
            % 0x1_0000_0000_0000_0000) as u64
    }
}

/// Hashes `data` with 64-bit FNV-1a.
pub fn fnv1a64(data: &[u8]) -> (hash: u64)
    ensures
        hash == fnv1a(data@),
{
    let mut hash: u64 = FNV_OFFSET;
    let n: usize = data.len();
    let mut i: usize = 0;
    assert(data@.take(0) =~= Seq::<u8>::empty());
    while i < n
        invariant
            n == data@.len(),
            i <= n,
            hash == fnv1a(data@.take(i as int)),
        decreases n - i,
    {
        let b: u8 = data[i];
        assert(data@.take(i + 1).drop_last() =~= data@.take(i as int));
        hash = hash ^ (b as u64);
        hash = hash.wrapping_mul(FNV_PRIME);
        i = i + 1;
    }
    assert(data@.take(n as int) =~= data@);
    hash
}

/// A bucket header: the root page of the bucket's tree (zero for an inline bucket) and the
/// bucket's sequence number.
#[derive(Clone, Copy, Debug, PartialEq, Eq, Structural)]
pub struct InBucket {
    pub root: Pgid,
    pub sequence: u64,
}

impl Default for InBucket {
    fn default() -> (b: Self)
        ensures
            b == (InBucket { root: 0, sequence: 0 }),
    {
        InBucket { root: 0, sequence: 0 }
    }
}

/// The bucket header stored at `off`.
pub open spec fn in_bucket_at(s: Seq<u8>, off: int) -> InBucket {
    InBucket { root: crate::bytes::le64(s, off), sequence: crate::bytes::le64(s, off + 8) }
}

/// `t` is `s` but for the bytes from `lo` up to `hi`.
pub open spec fn same_outside(s: Seq<u8>, t: Seq<u8>, lo: int, hi: int) -> bool {
    &&& s.len() == t.len()
    &&& forall|i: int| 0 <= i < s.len() && !(lo <= i < hi) ==> #[trigger] t[i] == s[i]
}

impl InBucket {
    pub fn new(root: Pgid, sequence: u64) -> (b: Self)
        ensures
            b.root == root,
            b.sequence == sequence,
    {
        InBucket { root, sequence }
    }

    /// Reads the header at the start of `buf`.
    pub fn read(buf: &[u8]) -> (b: Self)
        requires
            buf@.len() >= 16,
        ensures
            b == in_bucket_at(buf@, 0),
    {
        InBucket { root: read_u64(buf, 0), sequence: read_u64(buf, 8) }
    }

    pub(crate) fn write_at(&self, buf: &mut [u8], off: usize)
        requires
            off + 16 <= old(buf)@.len(),
        ensures
            same_outside(old(buf)@, final(buf)@, off as int, off + 16),
            in_bucket_at(final(buf)@, off as int) == *self,
    {
        assert(off + 16 <= buf.len());
        write_u64(buf, off, self.root);
        write_u64(buf, off + 8, self.sequence);
    }

    /// Writes the header at the start of `buf`.
    pub fn write(&self, buf: &mut [u8])
        requires
            old(buf)@.len() >= 16,
        ensures
            same_outside(old(buf)@, final(buf)@, 0, 16),
            in_bucket_at(final(buf)@, 0) == *self,
    {
        self.write_at(buf, 0)
    }

    /// The header as it is stored.
    pub fn to_bytes(self) -> (b: [u8; 16])
        ensures
            in_bucket_at(b@, 0) == self,
    {
        let mut b: [u8; 16] = [0u8; 16];
        self.write(&mut b);
        b
    }
}

/// The contents of a meta page.
#[derive(Debug, PartialEq, Eq, Structural)]
pub struct Meta {
    pub magic: u32,
    pub version: u32,
    pub page_size: u32,
    pub flags: u32,
    pub root: InBucket,
    pub freelist: Pgid,
    pub pgid: Pgid,
    pub txid: Txid,
    pub checksum: u64,
}

impl Clone for Meta {
    fn clone(&self) -> (m: Self)
        ensures
            m == *self,
    {
        Meta {
            magic: self.magic,
            version: self.version,
            page_size: self.page_size,
            flags: self.flags,
            root: self.root,
            freelist: self.freelist,
            pgid: self.pgid,
            txid: self.txid,
            checksum: self.checksum,
        }
    }
}

/// The meta record stored at `off`.
#[verifier::opaque]
pub open spec fn meta_at(s: Seq<u8>, off: int) -> Meta {
    Meta {
        magic: crate::bytes::le32(s, off),
        version: crate::bytes::le32(s, off + 4),
        page_size: crate::bytes::le32(s, off + 8),
        flags: crate::bytes::le32(s, off + 12),
        root: in_bucket_at(s, off + 16),
        freelist: crate::bytes::le64(s, off + 32),
        pgid: crate::bytes::le64(s, off + 40),
        txid: crate::bytes::le64(s, off + 48),
        checksum: crate::bytes::le64(s, off + 56),
    }
}

/// A record depends on its own bytes only.
pub proof fn lemma_meta_same(a: Seq<u8>, b: Seq<u8>)
    requires
        a.len() >= 80,
        b.len() >= 80,
        forall|i: int| 0 <= i < 80 ==> #[trigger] a[i] == b[i],
    ensures
        meta_at(a, 16) == meta_at(b, 16),
{
    reveal(meta_at);
}

/// The bytes of a meta record that its checksum covers.
pub open spec fn meta_prefix(m: Meta) -> Seq<u8> {
    crate::bytes::bytes32(m.magic) + crate::bytes::bytes32(m.version)
        + crate::bytes::bytes32(m.page_size) + crate::bytes::bytes32(m.flags)
        + crate::bytes::bytes64(m.root.root) + crate::bytes::bytes64(m.root.sequence)
        + crate::bytes::bytes64(m.freelist) + crate::bytes::bytes64(m.pgid)
        + crate::bytes::bytes64(m.txid)
}

/// The checksum that belongs into a meta record.
pub open spec fn meta_sum(m: Meta) -> u64 {
    fnv1a(meta_prefix(m))
}

/// A record that stores `m` starts with the bytes that the checksum covers.
pub proof fn lemma_meta_prefix(s: Seq<u8>, off: int)
    requires
        0 <= off,
        off + 64 <= s.len(),
    ensures
        meta_prefix(meta_at(s, off)) == s.subrange(off, off + 56),
{
    reveal(meta_at);
    crate::bytes::lemma_bytes32_le32(s, off);
    crate::bytes::lemma_bytes32_le32(s, off + 4);
    crate::bytes::lemma_bytes32_le32(s, off + 8);
    crate::bytes::lemma_bytes32_le32(s, off + 12);
    crate::bytes::lemma_bytes64_le64(s, off + 16);
    crate::bytes::lemma_bytes64_le64(s, off + 24);
    crate::bytes::lemma_bytes64_le64(s, off + 32);
    crate::bytes::lemma_bytes64_le64(s, off + 40);
    crate::bytes::lemma_bytes64_le64(s, off + 48);
    crate::bytes::lemma_join(s, off, off + 4, off + 8);
    crate::bytes::lemma_join(s, off, off + 8, off + 12);
    crate::bytes::lemma_join(s, off, off + 12, off + 16);
    crate::bytes::lemma_join(s, off, off + 16, off + 24);
    crate::bytes::lemma_join(s, off, off + 24, off + 32);
    crate::bytes::lemma_join(s, off, off + 32, off + 40);
    crate::bytes::lemma_join(s, off, off + 40, off + 48);
    crate::bytes::lemma_join(s, off, off + 48, off + 56);
}

impl Meta {
    /// Reads the record at the start of `buf`.
    pub fn read(buf: &[u8]) -> (m: Self)
        requires
            buf@.len() >= 64,
        ensures
            m == meta_at(buf@, 0),
    {
        Meta::read_at(buf, 0)
    }

    pub(crate) fn read_at(buf: &[u8], off: usize) -> (m: Self)
        requires
            off + 64 <= buf@.len(),
        ensures
            m == meta_at(buf@, off as int),
    {
        proof {
            reveal(meta_at);
        }
        assert(off + 64 <= buf.len());
        Meta {
            magic: read_u32(buf, off),
            version: read_u32(buf, off + 4),
            page_size: read_u32(buf, off + 8),
            flags: read_u32(buf, off + 12),
            root: InBucket { root: read_u64(buf, off + 16), sequence: read_u64(buf, off + 24) },
            freelist: read_u64(buf, off + 32),
            pgid: read_u64(buf, off + 40),
            txid: read_u64(buf, off + 48),
            checksum: read_u64(buf, off + 56),
        }
    }

    pub(crate) fn write_at(&self, buf: &mut [u8], off: usize)
        requires
            off + 64 <= old(buf)@.len(),
        ensures
            same_outside(old(buf)@, final(buf)@, off as int, off + 64),
            meta_at(final(buf)@, off as int) == *self,
    {
        assert(off + 64 <= buf.len());
        write_u32(buf, off, self.magic);
        write_u32(buf, off + 4, self.version);
        write_u32(buf, off + 8, self.page_size);
        write_u32(buf, off + 12, self.flags);
        self.root.write_at(buf, off + 16);
        write_u64(buf, off + 32, self.freelist);
        write_u64(buf, off + 40, self.pgid);
        write_u64(buf, off + 48, self.txid);
        write_u64(buf, off + 56, self.checksum);
        proof {
            reveal(meta_at);
        }
    }

    /// Writes the record at the start of `buf`.
    pub fn write(&self, buf: &mut [u8])
        requires
            old(buf)@.len() >= 64,
        ensures
            same_outside(old(buf)@, final(buf)@, 0, 64),
            meta_at(final(buf)@, 0) == *self,
    {
        self.write_at(buf, 0)
    }

    /// The checksum over the stored fields, the checksum itself excepted.
    pub fn sum64(&self) -> (sum: u64)
        ensures
            sum == meta_sum(*self),
    {
        let mut buf: [u8; 64] = [0u8; 64];
        self.write(&mut buf);
        proof {
            lemma_meta_prefix(buf@, 0);
        }
        fnv1a64(&buf[0..META_CHECKSUM_LEN])
    }

    /// Stores the checksum in the record.
    pub fn finish_checksum(&mut self)
        ensures
            *final(self) == (Meta { checksum: meta_sum(*old(self)), ..*old(self) }),
    {
        self.checksum = self.sum64();
    }

    /// Whether the record belongs to a database of this format and is intact.
    pub open spec fn valid(self) -> bool {
        &&& self.magic == MAGIC
        &&& self.version == VERSION
        &&& self.checksum == meta_sum(self)
    }

    /// Checks the magic number, then the version, then the checksum.
    pub fn validate(&self) -> (r: Result<()>)
        ensures
            match r {
                Ok(_) => self.valid(),
                Err(Error::Invalid) => self.magic != MAGIC,
                Err(Error::VersionMismatch) => self.magic == MAGIC && self.version != VERSION,
                Err(Error::Checksum) => self.magic == MAGIC && self.version == VERSION
                    && self.checksum != meta_sum(*self),
                Err(_) => false,
            },
    {
        if self.magic != MAGIC {
            return Err(Error::Invalid);
        }
        if self.version != VERSION {
            return Err(Error::VersionMismatch);
        }
        if self.checksum != self.sum64() {
            return Err(Error::Checksum);
        }
        Ok(())
    }

    /// Whether the freelist is stored in the file.
    pub fn is_freelist_persisted(&self) -> (b: bool)
        ensures
            b == (self.freelist != PGID_NO_FREELIST),
    {
        self.freelist != PGID_NO_FREELIST
    }
}

/// The header at the start of every page.
#[derive(Clone, Copy, Debug, PartialEq, Eq, Structural)]
pub struct PageHeader {
    pub id: Pgid,
    pub flags: u16,
    pub count: u16,
    pub overflow: u32,
}

impl Default for PageHeader {
    fn default() -> (h: Self)
        ensures
            h == (PageHeader { id: 0, flags: 0, count: 0, overflow: 0 }),
    {
        PageHeader { id: 0, flags: 0, count: 0, overflow: 0 }
    }
}

/// The page header stored at the start of `s`.
pub open spec fn header_of(s: Seq<u8>) -> PageHeader {
    PageHeader {
        id: crate::bytes::le64(s, 0),
        flags: crate::bytes::le16(s, 8),
        count: crate::bytes::le16(s, 10),
        overflow: crate::bytes::le32(s, 12),
    }
}

/// The name of a page type.
pub open spec fn page_type_name(flags: u16) -> Seq<char> {
    if flags == BRANCH_PAGE_FLAG {
        "branch"@
    } else if flags == LEAF_PAGE_FLAG {
        "leaf"@
    } else if flags == META_PAGE_FLAG {
        "meta"@
    } else if flags == FREELIST_PAGE_FLAG {
        "freelist"@
    } else {
        "unknown<"@ + crate::text::hex_padded(flags as nat) + ">"@
    }
}

impl PageHeader {
    /// Reads the header at the start of `buf`.
    pub fn read(buf: &[u8]) -> (h: Self)
        requires
            buf@.len() >= 16,
        ensures
            h == header_of(buf@),
    {
        PageHeader {
            id: read_u64(buf, 0),
            flags: read_u16(buf, 8),
            count: read_u16(buf, 10),
            overflow: read_u32(buf, 12),
        }
    }

    /// Writes the header at the start of `buf`.
    pub fn write(&self, buf: &mut [u8])
        requires
            old(buf)@.len() >= 16,
        ensures
            same_outside(old(buf)@, final(buf)@, 0, 16),
            header_of(final(buf)@) == *self,
    {
        write_u64(buf, 0, self.id);
        write_u16(buf, 8, self.flags);
        write_u16(buf, 10, self.count);
        write_u32(buf, 12, self.overflow);
    }

    pub fn is_branch(&self) -> (b: bool)
        ensures
            b == (self.flags == BRANCH_PAGE_FLAG),
    {
        self.flags == BRANCH_PAGE_FLAG
    }

    pub fn is_leaf(&self) -> (b: bool)
        ensures
            b == (self.flags == LEAF_PAGE_FLAG),
    {
        self.flags == LEAF_PAGE_FLAG
    }

    pub fn is_meta(&self) -> (b: bool)
        ensures
            b == (self.flags == META_PAGE_FLAG),
    {
        self.flags == META_PAGE_FLAG
    }

    pub fn is_freelist(&self) -> (b: bool)
        ensures
            b == (self.flags == FREELIST_PAGE_FLAG),
    {
        self.flags == FREELIST_PAGE_FLAG
    }

    /// Whether the page is of one of the four types.
    pub fn is_valid_type(&self) -> (b: bool)
        ensures
            b == (self.flags == BRANCH_PAGE_FLAG || self.flags == LEAF_PAGE_FLAG || self.flags
                == META_PAGE_FLAG || self.flags == FREELIST_PAGE_FLAG),
    {
        self.is_branch() || self.is_leaf() || self.is_meta() || self.is_freelist()
    }

    /// The name of the page's type.
    pub fn typ(&self) -> (name: String)
        ensures
            name@ == page_type_name(self.flags),
    {
        if self.is_branch() {
            "branch".to_string()
        } else if self.is_leaf() {
            "leaf".to_string()
        } else if self.is_meta() {
            "meta".to_string()
        } else if self.is_freelist() {
            "freelist".to_string()
        } else {
            let mut s: String = "unknown<".to_string();
            push_hex_padded(&mut s, self.flags as u64);
            s.append(">");
            s
        }
    }

    /// The size of one element of the page's element table.
    pub fn element_size(&self) -> (n: usize)
        ensures
            n == (if self.flags == LEAF_PAGE_FLAG { LEAF_PAGE_ELEMENT_SIZE } else { BRANCH_PAGE_ELEMENT_SIZE }),
    {
        if self.is_leaf() {
            LEAF_PAGE_ELEMENT_SIZE
        } else {
            BRANCH_PAGE_ELEMENT_SIZE
        }
    }
}

/// The id in a page's header.
pub fn page_id(buf: &[u8]) -> (id: Pgid)
    requires
        buf@.len() >= 16,
    ensures
        id == header_of(buf@).id,
{
    read_u64(buf, 0)
}

/// Sets the id in a page's header.
pub fn set_page_id(buf: &mut [u8], id: Pgid)
    requires
        old(buf)@.len() >= 16,
    ensures
        same_outside(old(buf)@, final(buf)@, 0, 8),
        header_of(final(buf)@) == (PageHeader { id: id, ..header_of(old(buf)@) }),
{
    write_u64(buf, 0, id);
}

/// Sets the type flags in a page's header.
pub fn set_page_flags(buf: &mut [u8], flags: u16)
    requires
        old(buf)@.len() >= 16,
    ensures
        same_outside(old(buf)@, final(buf)@, 8, 10),
        header_of(final(buf)@) == (PageHeader { flags: flags, ..header_of(old(buf)@) }),
{
    write_u16(buf, 8, flags);
}

/// Sets the element count in a page's header.
pub fn set_page_count(buf: &mut [u8], count: u16)
    requires
        old(buf)@.len() >= 16,
    ensures
        same_outside(old(buf)@, final(buf)@, 10, 12),
        header_of(final(buf)@) == (PageHeader { count: count, ..header_of(old(buf)@) }),
{
    write_u16(buf, 10, count);
}

/// Sets the overflow count in a page's header.
pub fn set_page_overflow(buf: &mut [u8], overflow: u32)
    requires
        old(buf)@.len() >= 16,
    ensures
        same_outside(old(buf)@, final(buf)@, 12, 16),
        header_of(final(buf)@) == (PageHeader { overflow: overflow, ..header_of(old(buf)@) }),
{
    write_u32(buf, 12, overflow);
}

/// Reads the meta record of a meta page.
pub fn meta_from_page(page: &[u8]) -> (m: Meta)
    requires
        page@.len() >= 80,
    ensures
        m == meta_at(page@, 16),
{
    Meta::read_at(page, PAGE_HEADER_SIZE)
}

/// What a meta page holds for `meta`: a header with the page number that the transaction id
/// selects, and the record with its checksum filled in.
#[verifier::opaque]
pub open spec fn is_meta_page_of(page: Seq<u8>, meta: Meta) -> bool {
    &&& page.len() >= 80
    &&& header_of(page) == (PageHeader {
        id: meta.txid % 2,
        flags: META_PAGE_FLAG,
        count: 0,
        overflow: 0,
    })
    &&& meta_at(page, 16) == (Meta { checksum: meta_sum(meta), ..meta })
}

/// There are only zeros from some place on.
pub open spec fn zero_from(page: Seq<u8>, from: int) -> bool {
    forall|j: int| from <= j < page.len() ==> #[trigger] page[j] == 0
}

/// What is on the meta page of a meta.
pub proof fn lemma_meta_page(page: Seq<u8>, meta: Meta)
    requires
        is_meta_page_of(page, meta),
    ensures
        page.len() >= 80,
        header_of(page).flags == META_PAGE_FLAG,
        meta_at(page, 16) == (Meta { checksum: meta_sum(meta), ..meta }),
{
    reveal(is_meta_page_of);
}

/// Fills `page` with the meta page of `meta`.
pub fn write_meta_page(page: &mut [u8], meta: &Meta)
    requires
        old(page)@.len() >= 80,
        meta.root.root < meta.pgid,
        meta.freelist < meta.pgid || meta.freelist == PGID_NO_FREELIST,
    ensures
        same_outside(old(page)@, final(page)@, 0, 80),
        is_meta_page_of(final(page)@, *meta),
{
    let hdr = PageHeader { id: meta.txid % 2, flags: META_PAGE_FLAG, count: 0, overflow: 0 };
    hdr.write(page);
    let mut m = meta.clone();
    m.finish_checksum();
    m.write_at(page, PAGE_HEADER_SIZE);
    proof {
        reveal(is_meta_page_of);
    }
}

} // verus!
