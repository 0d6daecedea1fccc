//! The format of the file, field by field: where each stands, how wide it is and how its bytes
//! are read, in plain numbers.
use vstd::prelude::*;
use crate::bytes::{le16, le32, le64};
use crate::file::block_size;
use crate::inode::{branch_elem, leaf_elem};
use crate::node::Pages;
use crate::page::{fnv1a, header_of, in_bucket_at, is_meta_page_of, lemma_meta_page, lemma_meta_prefix, meta_at, meta_prefix, page_type_name, BRANCH_PAGE_FLAG, BUCKET_LEAF_FLAG, FREELIST_PAGE_FLAG, LEAF_PAGE_FLAG, MAGIC, MAX_KEY_SIZE, MAX_VALUE_SIZE, META_PAGE_FLAG, Meta, PGID_NO_FREELIST, Pgid, VERSION};
use crate::pgids::{freelist_ok, freelist_seq, freelist_size, freelist_start};
use crate::text::{hex_padded, lemma_hex_padded, read_digits};

verus! {

/// The number whose `n` digits to the base 256 stand from `at` on, the least one first.
pub open spec fn number(s: Seq<u8>, at: int, n: nat) -> nat
    decreases n,
{
    if n == 0 {
        0
    } else {
        s[at] as nat + 256 * number(s, at + 1, (n - 1) as nat)
    }
}

/// Integers of two, four and eight bytes are stored with their least byte first.
pub proof fn lemma_number(s: Seq<u8>, at: int)
    ensures
        le16(s, at) == number(s, at, 2),
        le32(s, at) == number(s, at, 4),
        le64(s, at) == number(s, at, 8),
{
    reveal_with_fuel(number, 9);
}

/// A page starts with eight bytes of its id, two of its flags, two of its count and four of its
/// overflow.
pub proof fn lemma_header_format(page: Seq<u8>)
    ensures
        header_of(page).id == number(page, 0, 8),
        header_of(page).flags == number(page, 8, 2),
        header_of(page).count == number(page, 10, 2),
        header_of(page).overflow == number(page, 12, 4),
{
    lemma_number(page, 0);
    lemma_number(page, 8);
    lemma_number(page, 10);
    lemma_number(page, 12);
}

/// A bucket header is eight bytes of the root page's id and eight of the sequence number.
pub proof fn lemma_bucket_format(s: Seq<u8>, at: int)
    ensures
        in_bucket_at(s, at).root == number(s, at, 8),
        in_bucket_at(s, at).sequence == number(s, at + 8, 8),
{
    lemma_number(s, at);
    lemma_number(s, at + 8);
}

/// A meta record is four numbers of four bytes (magic number, version, page size and flags), the
/// header of the root bucket, and four numbers of eight bytes: the freelist's page, the number of
/// pages, the transaction and the checksum.
pub proof fn lemma_meta_format(s: Seq<u8>, at: int)
    ensures
        meta_at(s, at).magic == number(s, at, 4),
        meta_at(s, at).version == number(s, at + 4, 4),
        meta_at(s, at).page_size == number(s, at + 8, 4),
        meta_at(s, at).flags == number(s, at + 12, 4),
        meta_at(s, at).root.root == number(s, at + 16, 8),
        meta_at(s, at).root.sequence == number(s, at + 24, 8),
        meta_at(s, at).freelist == number(s, at + 32, 8),
        meta_at(s, at).pgid == number(s, at + 40, 8),
        meta_at(s, at).txid == number(s, at + 48, 8),
        meta_at(s, at).checksum == number(s, at + 56, 8),
{
    reveal(meta_at);
    lemma_number(s, at);
    lemma_number(s, at + 4);
    lemma_number(s, at + 8);
    lemma_number(s, at + 12);
    lemma_number(s, at + 16);
    lemma_number(s, at + 24);
    lemma_number(s, at + 32);
    lemma_number(s, at + 40);
    lemma_number(s, at + 48);
    lemma_number(s, at + 56);
}

/// Element `i` of a leaf page has a record of four numbers of four bytes: its flags, how far
/// behind the record's start its key stands, and the lengths of its key and of its value, which
/// follows the key.
pub proof fn lemma_leaf_format(page: Seq<u8>, i: int)
    requires
        0 <= i,
    ensures
        ({
            let at = 16 * (i + 1);
            let e = leaf_elem(page, i);
            let key = at + number(page, at + 4, 4);
            let value = key + number(page, at + 8, 4);
            &&& e.flags == number(page, at, 4)
            &&& e.key == page.subrange(key, value)
            &&& e.value == page.subrange(value, value + number(page, at + 12, 4))
        }),
{
    let at = 16 * (i + 1);
    lemma_number(page, at);
    lemma_number(page, at + 4);
    lemma_number(page, at + 8);
    lemma_number(page, at + 12);
}

/// Element `i` of a branch page has a record of two numbers of four bytes (how far behind the
/// record's start its key stands, and the key's length) and the eight bytes of the id of the page
/// that it leads to.
pub proof fn lemma_branch_format(page: Seq<u8>, i: int)
    requires
        0 <= i,
    ensures
        ({
            let at = 16 * (i + 1);
            let e = branch_elem(page, i);
            let key = at + number(page, at, 4);
            &&& e.key == page.subrange(key, key + number(page, at + 4, 4))
            &&& e.pgid == number(page, at + 8, 8)
        }),
{
    let at = 16 * (i + 1);
    lemma_number(page, at);
    lemma_number(page, at + 4);
    lemma_number(page, at + 8);
}

/// A freelist page holds ids of eight bytes each, one behind the other. Where there are 65535 or
/// more of them the count in its header says 65535, and their number stands before the first one.
pub proof fn lemma_freelist_format(page: Seq<u8>, i: int)
    requires
        freelist_ok(page),
    ensures
        number(page, 8, 2) == 16,
        ({
            let far = number(page, 10, 2) == 65535;
            let n = if far { number(page, 16, 8) } else { number(page, 10, 2) };
            let at = if far { 24int } else { 16 };
            &&& freelist_seq(page).len() == n
            &&& at + 8 * n <= page.len()
            &&& 0 <= i < n ==> freelist_seq(page)[i] == number(page, at + 8 * i, 8)
        }),
{
    lemma_header_format(page);
    lemma_number(page, 16);
    lemma_number(page, freelist_start(page) + 8 * i);
}

/// A freelist page for `n` ids takes the header, the ids and, where the header's count cannot
/// hold their number, that number.
pub proof fn lemma_freelist_room(n: int)
    requires
        0 <= n,
    ensures
        freelist_size(n) == 16 + 8 * n + (if n < 65535 { 0int } else { 8 }),
{
}

/// The marks and bounds of the format.
pub proof fn lemma_marks()
    ensures
        MAGIC == 0xED0CDAED,
        VERSION == 2,
        BRANCH_PAGE_FLAG == 1,
        LEAF_PAGE_FLAG == 2,
        META_PAGE_FLAG == 4,
        FREELIST_PAGE_FLAG == 16,
        BUCKET_LEAF_FLAG == 1,
        PGID_NO_FREELIST == u64::MAX,
        MAX_KEY_SIZE == 32768,
        MAX_VALUE_SIZE == 2147483646,
{
}

/// A hash of bytes starts from one number, and each byte is taken in by an exclusive or with the
/// hash of those before it, which is multiplied then by another number, without what goes beyond
/// 64 bits.
pub proof fn lemma_hash(data: Seq<u8>, byte: u8)
    ensures
        fnv1a(Seq::empty()) == 14695981039346656037,
        fnv1a(data.push(byte)) == ((fnv1a(data) ^ byte as u64) * 1099511628211) % 18446744073709551616,
{
    assert(data.push(byte).drop_last() =~= data);
}

/// A meta record counts if and only if it begins with the magic number and the version, and its
/// last eight bytes are the hash of those before them.
pub proof fn lemma_meta_counts(s: Seq<u8>, at: int)
    requires
        0 <= at,
        at + 64 <= s.len(),
    ensures
        meta_at(s, at).valid() <==> {
            &&& number(s, at, 4) == 0xED0CDAED
            &&& number(s, at + 4, 4) == 2
            &&& number(s, at + 56, 8) == fnv1a(s.subrange(at, at + 56))
        },
{
    lemma_meta_format(s, at);
    lemma_meta_prefix(s, at);
}

/// Page `p` starts at the `p`th multiple of the page size, and goes on for as many pages more as the
/// overflow in its header says. It can be read if and only if the file reaches to its end.
pub proof fn lemma_page_place(pages: Pages, p: Pgid, i: int)
    requires
        pages.page_size > 0,
    ensures
        ({
            let start = p * pages.page_size;
            let over = number(pages.image@, start + 12, 4);
            let end = (p + 1 + over) * pages.page_size;
            &&& pages.has(p) <==> start + 16 <= pages.image@.len() && end <= pages.image@.len()
            &&& pages.has(p) ==> pages.bytes(p).len() == end - start
            &&& pages.has(p) && 0 <= i < end - start ==> pages.bytes(p)[i] == pages.image@[start + i]
        }),
{
    let start = p * pages.page_size;
    let image = pages.image@;
    let over = number(image, start + 12, 4);
    assert(start >= 0) by (nonlinear_arith)
        requires
            start == p * pages.page_size,
    ;
    if start + 16 <= image.len() {
        let page = image.skip(start);
        lemma_header_format(page);
        reveal_with_fuel(number, 5);
        assert(number(page, 12, 4) == over);
        assert((p + 1 + over) * pages.page_size == start + (over + 1) * pages.page_size) by (nonlinear_arith)
            requires
                start == p * pages.page_size,
        ;
        assert((over + 1) * pages.page_size >= 0) by (nonlinear_arith);
    }
}

/// The names of the page types, and how one is shown that has none.
pub proof fn lemma_type_names(flags: u16)
    ensures
        flags == 1 ==> page_type_name(flags) == "branch"@,
        flags == 2 ==> page_type_name(flags) == "leaf"@,
        flags == 4 ==> page_type_name(flags) == "meta"@,
        flags == 16 ==> page_type_name(flags) == "freelist"@,
        flags != 1 && flags != 2 && flags != 4 && flags != 16 ==> page_type_name(flags) == "unknown<"@ + hex_padded(
            flags as nat,
        ) + ">"@ && read_digits(hex_padded(flags as nat), 16) == flags,
{
    lemma_hex_padded(flags as nat, 0);
}

/// A meta page has the number of its transaction, odd or even, for its id, is marked as a meta page, and
/// holds the meta behind its header with a checksum that is right.
pub proof fn lemma_meta_page_format(page: Seq<u8>, meta: Meta)
    requires
        is_meta_page_of(page, meta),
        meta.magic == 0xED0CDAED,
        meta.version == 2,
    ensures
        page.len() >= 80,
        number(page, 0, 8) == meta.txid % 2,
        number(page, 8, 2) == 4,
        number(page, 10, 2) == 0,
        number(page, 12, 4) == 0,
        number(page, 16, 4) == 0xED0CDAED,
        number(page, 20, 4) == 2,
        number(page, 24, 4) == meta.page_size,
        number(page, 28, 4) == meta.flags,
        number(page, 32, 8) == meta.root.root,
        number(page, 40, 8) == meta.root.sequence,
        number(page, 48, 8) == meta.freelist,
        number(page, 56, 8) == meta.pgid,
        number(page, 64, 8) == meta.txid,
        number(page, 72, 8) == fnv1a(page.subrange(16, 72)),
{
    reveal(is_meta_page_of);
    lemma_meta_page(page, meta);
    lemma_header_format(page);
    lemma_meta_format(page, 16);
    lemma_meta_prefix(page, 16);
    assert(meta_prefix(meta_at(page, 16)) == meta_prefix(meta));
}

/// A block that was read from a file tells the page size if and only if it is long enough for a meta
/// page, holds an intact meta record behind a page header, and that says a size other than zero.
pub proof fn lemma_block(block: Seq<u8>)
    ensures
        ({
            let intact = block.len() >= 80 && number(block, 16, 4) == 0xED0CDAED && number(block, 20, 4) == 2 && number(
                block,
                72,
                8,
            ) == fnv1a(block.subrange(16, 72));
            match block_size(block) {
                Some(n) => intact && n != 0 && n == number(block, 24, 4),
                None => !intact || number(block, 24, 4) == 0,
            }
        }),
{
    lemma_meta_format(block, 16);
    if block.len() >= 80 {
        lemma_meta_counts(block, 16);
    }
}

} // verus!
