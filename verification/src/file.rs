//! The file of a database: how large it is, and which meta page counts.
use vstd::prelude::*;
use vstd::arithmetic::power2::{lemma_pow2_unfold, pow2};
use crate::error::{Error, Result};
use crate::freeset::FreelistType;
use crate::page::{header_of, meta_at, meta_from_page, MAX_MMAP_STEP, META_PAGE_FLAG, Meta, PageHeader};
use crate::text::{decimal, push_decimal};

verus! {

/// How long to wait before asking again for the lock on the file, in nanoseconds.
pub const FLOCK_RETRY: u128 = 50_000_000;

/// How a database is opened.
#[derive(Clone, Debug)]
pub struct Options {
    /// How long to wait for the lock on the file, in nanoseconds.
    pub timeout: Option<u128>,
    pub no_grow_sync: bool,
    pub no_sync: bool,
    pub read_only: bool,
    /// The size of a page of a new database; zero is that of the system.
    pub page_size: usize,
    pub initial_mmap_size: usize,
    /// The largest size that the file may have; zero is no limit.
    pub max_size: usize,
    pub no_freelist_sync: bool,
    /// How the free pages are indexed.
    pub freelist_type: FreelistType,
    /// Whether the free pages are loaded where the database is only read. For writing they always
    /// are.
    pub pre_load_freelist: bool,
}

impl Default for Options {
    fn default() -> (o: Self)
        ensures
            o == (Options {
                timeout: None,
                no_grow_sync: false,
                no_sync: false,
                read_only: false,
                page_size: 0,
                initial_mmap_size: 0,
                max_size: 0,
                no_freelist_sync: false,
                freelist_type: FreelistType::Array,
                pre_load_freelist: false,
            }),
    {
        Options {
            timeout: None,
            no_grow_sync: false,
            no_sync: false,
            read_only: false,
            page_size: 0,
            initial_mmap_size: 0,
            max_size: 0,
            no_freelist_sync: false,
            freelist_type: FreelistType::Array,
            pre_load_freelist: false,
        }
    }
}

impl Options {
    /// The options that are taken where none are given.
    pub fn new() -> (o: Self)
        ensures
            o == (Options {
                timeout: None,
                no_grow_sync: false,
                no_sync: false,
                read_only: false,
                page_size: 0,
                initial_mmap_size: 0,
                max_size: 0,
                no_freelist_sync: false,
                freelist_type: FreelistType::Array,
                pre_load_freelist: false,
            }),
    {
        Options::default()
    }

    /// Whether the free pages are loaded when the database is opened.
    pub fn loads_freelist(&self) -> (r: bool)
        ensures
            r == (!self.read_only || self.pre_load_freelist),
    {
        !self.read_only || self.pre_load_freelist
    }
}

/// The page size of the system, from what it answers when it is asked.
pub fn os_page_size(answer: i64) -> (n: usize)
    requires
        answer <= usize::MAX,
    ensures
        n == (if answer > 0 { answer as int } else { 4096 }),
{
    if answer > 0 {
        answer as usize
    } else {
        4096
    }
}

/// `n` is a power of two.
pub open spec fn power_of_two(n: nat) -> bool {
    exists|k: nat| n == #[trigger] pow2(k)
}

fn is_power_of_two(n: usize) -> (b: bool)
    ensures
        b == power_of_two(n as nat),
    decreases n,
{
    proof {
        assert(pow2(0) == 1) by {
            reveal(pow2);
            vstd::arithmetic::power::lemma_pow0(2);
        }
    }
    if n == 0 {
        proof {
            assert forall|k: nat| n != #[trigger] pow2(k) by {
                vstd::arithmetic::power2::lemma_pow2_pos(k);
            }
        }
        return false;
    }
    if n == 1 {
        return true;
    }
    let half: bool = is_power_of_two(n / 2);
    proof {
        if n % 2 == 0 && half {
            let k = choose|k: nat| (n / 2) as nat == #[trigger] pow2(k);
            lemma_pow2_unfold((k + 1) as nat);
            assert(n as nat == pow2((k + 1) as nat));
        }
        if power_of_two(n as nat) {
            let k = choose|k: nat| n as nat == #[trigger] pow2(k);
            lemma_pow2_unfold(k);
            assert((n / 2) as nat == pow2((k - 1) as nat));
        }
    }
    n % 2 == 0 && half
}

/// Why a page size is refused.
pub open spec fn page_size_text(n: nat) -> Seq<char> {
    "page size must be a power of two >= 1024, got "@ + decimal(n)
}

/// The size of a page of a new database: the one that was asked for, or that of the system.
pub fn choose_page_size(asked: usize, system: usize) -> (r: Result<usize>)
    ensures
        ({
            let n = if asked == 0 { system } else { asked };
            if n < 1024 || !power_of_two(n as nat) {
                r matches Err(Error::Corrupt(text)) && text@ == page_size_text(n as nat)
            } else {
                r == Ok::<usize, Error>(n)
            }
        }),
{
    let n: usize = if asked == 0 {
        system
    } else {
        asked
    };
    if n < 1024 || !is_power_of_two(n) {
        let mut text: String = "page size must be a power of two >= 1024, got ".to_string();
        push_decimal(&mut text, n as u64);
        return Err(Error::Corrupt(text));
    }
    Ok(n)
}

// ---------------------------------------------------------------------------------------------
// The lock on the file.

/// What comes after the lock was asked for.
#[derive(Clone, Copy, Debug, PartialEq, Eq, Structural)]
pub enum LockStep {
    Locked,
    Failed,
    TimedOut,
    Retry,
}

/// What comes after the system was asked for the lock.
pub open spec fn lock_step(rc: i32, code: Option<i32>, busy: (i32, i32), elapsed: u128, timeout: Option<u128>) -> LockStep {
    if rc == 0 {
        LockStep::Locked
    } else if code != Some(busy.0) && code != Some(busy.1) {
        LockStep::Failed
    } else if timeout is Some && elapsed + FLOCK_RETRY >= timeout->0 {
        LockStep::TimedOut
    } else {
        LockStep::Retry
    }
}

/// The lock is had where the system says so. Where somebody else holds it, it is asked for again as long as
/// the next time, 50 milliseconds later, is within the time that was given; without such a time always.
/// For any other reason it is given up.
pub proof fn lemma_lock(rc: i32, code: Option<i32>, busy: (i32, i32), elapsed: u128, timeout: Option<u128>)
    ensures
        ({
            let step = lock_step(rc, code, busy, elapsed, timeout);
            let held = code is Some && (code->0 == busy.0 || code->0 == busy.1);
            let again = timeout is None || elapsed + 50_000_000 < timeout->0;
            &&& step == LockStep::Locked <==> rc == 0
            &&& step == LockStep::Failed <==> rc != 0 && !held
            &&& step == LockStep::Retry <==> rc != 0 && held && again
            &&& step == LockStep::TimedOut <==> rc != 0 && held && !again
        }),
{
}

/// What comes after the system was asked for the lock: `rc` is its answer, `code` its reason,
/// `busy` the two reasons that say that somebody else holds the lock. The times are in nanoseconds.
pub fn flock(rc: i32, code: Option<i32>, busy: (i32, i32), elapsed: u128, timeout: Option<u128>) -> (step: LockStep)
    requires
        elapsed + FLOCK_RETRY <= u128::MAX,
    ensures
        step == lock_step(rc, code, busy, elapsed, timeout),
{
    if rc == 0 {
        return LockStep::Locked;
    }
    let waits: bool = match code {
        Some(c) => c == busy.0 || c == busy.1,
        None => false,
    };
    if !waits {
        return LockStep::Failed;
    }
    match timeout {
        Some(t) => if elapsed + FLOCK_RETRY >= t {
            LockStep::TimedOut
        } else {
            LockStep::Retry
        },
        None => LockStep::Retry,
    }
}

// ---------------------------------------------------------------------------------------------
// Sizes.

/// The smallest multiple of `step` that is at least `n`.
pub open spec fn rounded(n: int, step: int) -> int {
    if n % step == 0 {
        n
    } else {
        (n / step + 1) * step
    }
}

/// The smallest of the powers of two from the one with exponent `k` to 1 GiB that is at least `size`.
pub open spec fn power_for(size: int, k: nat) -> int
    decreases 30 - k,
{
    if k >= 30 || size <= pow2(k) {
        pow2(k) as int
    } else {
        power_for(size, (k + 1) as nat)
    }
}

/// How much to map for `size` bytes: a power of two from 32 KiB to 1 GiB, and beyond that whole
/// gigabytes and whole pages.
pub open spec fn mapped_size(page_size: int, size: int) -> int {
    if size <= 0x4000_0000 {
        power_for(size, 15)
    } else {
        rounded(rounded(size, 0x4000_0000), page_size)
    }
}

/// The same, unless it is more than can be mapped.
pub fn mmap_size(page_size: usize, size: usize) -> (r: Result<usize>)
    requires
        page_size > 0,
        isize::MAX + MAX_MMAP_STEP + page_size <= usize::MAX,
    ensures
        if size > isize::MAX && size > 0x4000_0000 {
            r matches Err(Error::Corrupt(text)) && text@ == "mmap too large"@
        } else {
            r matches Ok(n) && n == mapped_size(page_size as int, size as int)
        },
{
    let mut k: u32 = 15;
    let mut n: usize = 0x8000;
    proof {
        vstd::arithmetic::power2::lemma2_to64();
    }
    while k <= 30
        invariant
            15 <= k <= 31,
            n == pow2(k as nat),
            k <= 30 ==> power_for(size as int, 15) == power_for(size as int, k as nat),
            k > 30 ==> size > 0x4000_0000,
        decreases 31 - k,
    {
        proof {
            vstd::arithmetic::power2::lemma2_to64();
            lemma_pow2_unfold((k + 1) as nat);
            if k < 30 {
                vstd::arithmetic::power2::lemma_pow2_strictly_increases(k as nat, 30);
            }
        }
        if size <= n {
            return Ok(n);
        }
        n = n * 2;
        k = k + 1;
    }
    if size > isize::MAX as usize {
        return Err(Error::Corrupt("mmap too large".to_string()));
    }
    let mut sz: usize = size;
    if sz % MAX_MMAP_STEP != 0 {
        sz = (sz / MAX_MMAP_STEP + 1) * MAX_MMAP_STEP;
    }
    if sz % page_size != 0 {
        proof {
            assert((sz / page_size + 1) * page_size <= sz + page_size) by (nonlinear_arith)
                requires
                    page_size > 0,
                    sz >= 0,
            ;
        }
        sz = (sz / page_size + 1) * page_size;
    }
    Ok(sz)
}

/// Rounding up goes to a multiple, and less than a step.
proof fn lemma_rounded(n: int, step: int)
    requires
        step > 0,
        n >= 0,
    ensures
        n <= rounded(n, step) < n + step,
        rounded(n, step) % step == 0,
{
    vstd::arithmetic::div_mod::lemma_fundamental_div_mod(n, step);
    vstd::arithmetic::div_mod::lemma_mod_bound(n, step);
    vstd::arithmetic::mul::lemma_mul_is_commutative(n / step, step);
    vstd::arithmetic::mul::lemma_mul_is_distributive_add_other_way(step, n / step, 1);
    vstd::arithmetic::div_mod::lemma_mod_multiples_basic(n / step + 1, step);
}

proof fn lemma_power_for(size: int, k: nat)
    requires
        15 <= k <= 30,
        size <= 0x4000_0000,
        k > 15 ==> pow2((k - 1) as nat) < size,
    ensures
        exists|e: nat| 15 <= e <= 30 && power_for(size, k) == #[trigger] pow2(e) && size <= pow2(e) && (e > 15
            ==> pow2((e - 1) as nat) < size),
    decreases 30 - k,
{
    vstd::arithmetic::power2::lemma2_to64();
    if k < 30 && size > pow2(k) {
        lemma_power_for(size, k + 1);
    }
}

/// What is mapped holds all that has to be, and little more: up to a gigabyte it is a power of
/// two, 32 KiB at least, and half of it would not do; beyond that it is whole pages, and whole
/// gigabytes where a gigabyte is a whole number of pages, and less than a gigabyte and a page
/// more than what has to be mapped.
pub proof fn lemma_mapped_size(page_size: int, size: int)
    requires
        page_size > 0,
        size >= 0,
    ensures
        ({
            let n = mapped_size(page_size, size);
            &&& n >= size
            &&& n >= 32768
            &&& size <= 1073741824 ==> power_of_two(n as nat) && (n == 32768 || n < 2 * size)
            &&& size > 1073741824 ==> n % page_size == 0 && n < size + 1073741824 + page_size
            &&& size > 1073741824 && 1073741824int % page_size == 0 ==> n % 1073741824 == 0 && n < size + 1073741824
        }),
{
    vstd::arithmetic::power2::lemma2_to64();
    if size <= 0x4000_0000 {
        lemma_power_for(size, 15);
        let e = choose|e: nat|
            15 <= e <= 30 && power_for(size, 15) == #[trigger] pow2(e) && size <= pow2(e) && (e > 15 ==> pow2(
                (e - 1) as nat,
            ) < size);
        lemma_pow2_unfold(e);
        if e > 15 {
            vstd::arithmetic::power2::lemma_pow2_strictly_increases(15, e);
        }
    } else {
        let whole = rounded(size, 0x4000_0000);
        lemma_rounded(size, 0x4000_0000);
        lemma_rounded(whole, page_size);
        if 0x4000_0000int % page_size == 0 {
            let a: int = 0x4000_0000int / page_size;
            vstd::arithmetic::div_mod::lemma_fundamental_div_mod(0x4000_0000, page_size);
            vstd::arithmetic::div_mod::lemma_fundamental_div_mod(whole, 0x4000_0000);
            let b: int = whole / 0x4000_0000;
            assert(whole == b * a * page_size) by (nonlinear_arith)
                requires
                    whole == 0x4000_0000 * b,
                    0x4000_0000 == page_size * a,
            ;
            vstd::arithmetic::div_mod::lemma_mod_multiples_basic(b * a, page_size);
        }
    }
}

/// How much to map of a file of `file_size` bytes where `min_size` bytes are wanted: no more than
/// there is, but at least the two meta pages.
pub fn remap(page_size: usize, file_size: usize, min_size: usize) -> (r: Result<usize>)
    requires
        page_size > 0,
        isize::MAX + MAX_MMAP_STEP + page_size <= usize::MAX,
        page_size * 2 <= usize::MAX,
    ensures
        ({
            let size = if file_size >= min_size { file_size } else { min_size };
            let most = if file_size >= page_size * 2 { file_size as int } else { page_size * 2 };
            let n = mapped_size(page_size as int, size as int);
            if size > isize::MAX && size > 0x4000_0000 {
                r matches Err(Error::Corrupt(text)) && text@ == "mmap too large"@
            } else {
                r matches Ok(len) && len == (if n <= most { n } else { most })
            }
        }),
        file_size >= page_size * 2 ==> (r matches Ok(len) ==> len == file_size),
        file_size < page_size * 2 ==> (r matches Ok(len) ==> len <= page_size * 2),
{
    let size: usize = if file_size >= min_size {
        file_size
    } else {
        min_size
    };
    let most: usize = if file_size >= page_size * 2 {
        file_size
    } else {
        page_size * 2
    };
    proof {
        lemma_mapped_size(page_size as int, size as int);
    }
    match mmap_size(page_size, size) {
        Err(e) => Err(e),
        Ok(n) => if n <= most {
            Ok(n)
        } else {
            Ok(most)
        },
    }
}

/// How much to map anew, if anything.
pub open spec fn to_map(datasz: usize, mapped: bool, file_size: usize, min_size: usize) -> Option<usize> {
    if mapped && datasz >= min_size {
        None
    } else if min_size >= file_size {
        Some(min_size)
    } else {
        Some(file_size)
    }
}

/// Nothing is mapped anew just if enough is mapped; otherwise the whole file is, and at least as much as is
/// wanted, and no more than these ask for.
pub proof fn lemma_to_map(datasz: usize, mapped: bool, file_size: usize, min_size: usize)
    ensures
        match to_map(datasz, mapped, file_size, min_size) {
            None => mapped && min_size <= datasz,
            Some(n) => (!mapped || datasz < min_size) && n >= file_size && n >= min_size && (n == file_size || n
                == min_size),
        },
{
}

/// How much to map anew so that `min_size` bytes are mapped, or nothing where that is so already.
pub fn ensure_mapped(datasz: usize, mapped: bool, file_size: usize, min_size: usize) -> (r: Option<usize>)
    ensures
        r == to_map(datasz, mapped, file_size, min_size),
{
    if mapped && datasz >= min_size {
        None
    } else if min_size >= file_size {
        Some(min_size)
    } else {
        Some(file_size)
    }
}

/// How large to make a file that has to hold `size` bytes: while little is mapped as much as is
/// mapped, and later a whole step more than is needed.
pub open spec fn grown(size: int, datasz: int, step: int) -> int {
    if datasz > step {
        size + step
    } else if datasz >= size {
        datasz
    } else {
        size
    }
}

/// A file is made large enough. It is exactly as large as it has to be or as what is mapped,
/// whichever is more, until more than a step is mapped; from then on each time a step is to spare.
pub proof fn lemma_grown(size: int, datasz: int, step: int)
    ensures
        datasz <= step ==> grown(size, datasz, step) >= size && grown(size, datasz, step) >= datasz && (grown(
            size,
            datasz,
            step,
        ) == size || grown(size, datasz, step) == datasz),
        datasz > step ==> grown(size, datasz, step) - size == step,
{
}

pub fn grow_size(size: usize, datasz: usize, step: usize) -> (n: usize)
    requires
        size + step <= usize::MAX,
    ensures
        n == grown(size as int, datasz as int, step as int),
{
    if datasz <= step {
        if datasz >= size {
            datasz
        } else {
            size
        }
    } else {
        size + step
    }
}

/// The size to give to the file so that it holds `size` bytes, or nothing where it does or is
/// not to be grown.
pub fn grow(size: usize, file_size: usize, datasz: usize, step: usize, fixed: bool) -> (r: Option<usize>)
    requires
        size + step <= usize::MAX,
    ensures
        r == (if size <= file_size || fixed {
            None
        } else {
            Some(grown(size as int, datasz as int, step as int) as usize)
        }),
{
    if size <= file_size {
        return None;
    }
    let n: usize = grow_size(size, datasz, step);
    if fixed {
        None
    } else {
        Some(n)
    }
}

// ---------------------------------------------------------------------------------------------
// The meta pages.

/// The meta on page zero, if that is a meta page and intact.
pub open spec fn meta_zero(image: Seq<u8>) -> Option<Meta> {
    if header_of(image).flags == META_PAGE_FLAG && meta_at(image, 16).valid() {
        Some(meta_at(image, 16))
    } else {
        None
    }
}

/// The meta on the page after it, where pages have the size that page zero says, if it is intact.
pub open spec fn meta_one(image: Seq<u8>) -> Option<Meta> {
    let at = meta_at(image, 16).page_size as int;
    if image.len() >= at + 80 && meta_at(image.skip(at), 16).valid() {
        Some(meta_at(image.skip(at), 16))
    } else {
        None
    }
}

/// The meta that counts: the newer one of those that are intact.
pub open spec fn picked(image: Seq<u8>) -> Option<Meta> {
    if image.len() < 80 || meta_at(image, 16).page_size == 0 {
        None
    } else {
        match (meta_zero(image), meta_one(image)) {
            (Some(a), Some(b)) => Some(if a.txid > b.txid { a } else { b }),
            (Some(a), None) => Some(a),
            (None, b) => b,
        }
    }
}

/// The meta that counts is intact, stands on one of the two first pages, and no intact one of
/// these is newer. There is one wherever one of the two is intact and page zero says how large a
/// page is.
pub proof fn lemma_picked(image: Seq<u8>)
    requires
        image.len() >= 80,
    ensures
        ({
            let a = meta_at(image, 16);
            let b = meta_at(image.skip(a.page_size as int), 16);
            let first = header_of(image).flags == 4 && a.valid();
            let second = a.page_size + 80 <= image.len() && b.valid();
            match picked(image) {
                Some(m) => {
                    &&& m == a && first || m == b && second
                    &&& first ==> a.txid <= m.txid
                    &&& second ==> b.txid <= m.txid
                },
                None => a.page_size == 0 || !first && !second,
            }
        }),
        meta_at(image, 16).page_size == 0 ==> picked(image) is None,
{
}

/// Finds the meta that counts.
pub fn pick_meta(image: &[u8]) -> (r: Option<Meta>)
    ensures
        r == picked(image@),
{
    if image.len() < 80 {
        return None;
    }
    let hdr = PageHeader::read(image);
    let m: Meta = meta_from_page(image);
    if m.page_size == 0 {
        return None;
    }
    let at: u64 = m.page_size as u64;
    let zero: Option<Meta> = if hdr.is_meta() && m.validate().is_ok() {
        Some(m)
    } else {
        None
    };
    let one: Option<Meta> = if image.len() as u64 - 80 >= at {
        let start: usize = at as usize;
        let rest: &[u8] = vstd::slice::slice_subrange(image, start, image.len());
        assert(rest@ =~= image@.skip(at as int));
        let n: Meta = meta_from_page(rest);
        if n.validate().is_ok() {
            Some(n)
        } else {
            None
        }
    } else {
        None
    };
    match (zero, one) {
        (Some(a), Some(b)) => if a.txid > b.txid {
            Some(a)
        } else {
            Some(b)
        },
        (Some(a), None) => Some(a),
        (None, b) => b,
    }
}

// ---------------------------------------------------------------------------------------------
// The page size of a file.

/// What to do to learn the page size of a file.
#[derive(Clone, Copy, Debug, PartialEq, Eq, Structural)]
pub enum Probe {
    /// The page size.
    Found(usize),
    /// Read at this place.
    Read(u64),
    /// The file is no database.
    Bad,
}

/// The page size in a block with an intact meta page at its start.
pub open spec fn block_size(block: Seq<u8>) -> Option<u32> {
    if block.len() >= 80 && meta_at(block, 16).valid() && meta_at(block, 16).page_size != 0 {
        Some(meta_at(block, 16).page_size)
    } else {
        None
    }
}

/// What to do when `i` blocks were read after the first: the places are 1 KiB and each time twice
/// as much, up to 16 MiB and to the last kilobyte of the file.
pub open spec fn next_probe(i: int, file_size: u64, first: Seq<u8>, fallback: usize) -> Probe {
    if i <= 14 && 1024 * pow2(i as nat) < file_size - 1024 {
        Probe::Read((1024 * pow2(i as nat)) as u64)
    } else if first.len() >= 16 {
        Probe::Found(fallback)
    } else {
        Probe::Bad
    }
}

/// The places that are read after the first block are those where the second page can start, for
/// each page size from 1 KiB to 16 MiB that is a power of two, the smallest first, as far as a
/// kilobyte can be read there and the file goes on behind it. After them there is nothing more to
/// read, and the fallback holds where at least a page header could be read.
pub proof fn lemma_probed(i: nat, file_size: u64, first: Seq<u8>, fallback: usize)
    ensures
        ({
            let place = pow2(10 + i);
            &&& place <= 16777216 && place + 1024 < file_size ==> next_probe(i as int, file_size, first, fallback)
                == Probe::Read(place as u64)
            &&& !(place <= 16777216 && place + 1024 < file_size) && first.len() >= 16 ==> next_probe(
                i as int,
                file_size,
                first,
                fallback,
            ) == Probe::Found(fallback)
            &&& !(place <= 16777216 && place + 1024 < file_size) && first.len() < 16 ==> next_probe(
                i as int,
                file_size,
                first,
                fallback,
            ) == Probe::Bad
        }),
{
    vstd::arithmetic::power2::lemma2_to64();
    vstd::arithmetic::power2::lemma_pow2_adds(10, i);
    if i < 14 {
        vstd::arithmetic::power2::lemma_pow2_strictly_increases(i, 14);
    }
    if i > 14 {
        vstd::arithmetic::power2::lemma_pow2_strictly_increases(14, i);
    }
}

/// The page size in a block with an intact meta page at its start.
fn size_in(block: &[u8]) -> (r: Option<u32>)
    ensures
        r == block_size(block@),
{
    if block.len() < 80 {
        return None;
    }
    let m: Meta = meta_from_page(block);
    if m.validate().is_ok() && m.page_size != 0 {
        Some(m.page_size)
    } else {
        None
    }
}

/// How to learn the page size of a file, from its first block and those that were read after it.
pub fn get_page_size(first: &[u8], blocks: &Vec<Vec<u8>>, file_size: u64, fallback: usize) -> (p: Probe)
    requires
        blocks@.len() <= 15,
    ensures
        if block_size(first@) is Some {
            p == Probe::Found(block_size(first@)->0 as usize)
        } else if exists|i: int| 0 <= i < blocks@.len() && block_size(#[trigger] blocks@[i]@) is Some {
            exists|i: int| 0 <= i < blocks@.len() && p == Probe::Found(block_size(#[trigger] blocks@[i]@)->0 as usize)
                && block_size(blocks@[i]@) is Some && forall|j: int| 0 <= j < i ==> block_size(#[trigger] blocks@[j]@) is None
        } else {
            p == next_probe(blocks@.len() as int, file_size, first@, fallback)
        },
{
    match size_in(first) {
        Some(n) => {
            return Probe::Found(n as usize);
        },
        None => {},
    }
    let mut i: usize = 0;
    let mut pos: u64 = 1024;
    proof {
        vstd::arithmetic::power2::lemma2_to64();
    }
    while i < blocks.len()
        invariant
            i <= blocks@.len() <= 15,
            pos == 1024 * pow2(i as nat),
            pos <= 0x200_0000,
            forall|j: int| 0 <= j < i ==> block_size(#[trigger] blocks@[j]@) is None,
            block_size(first@) is None,
        decreases blocks@.len() - i,
    {
        match size_in(blocks[i].as_slice()) {
            Some(n) => {
                assert(block_size(blocks@[i as int]@) is Some);
                return Probe::Found(n as usize);
            },
            None => {},
        }
        proof {
            vstd::arithmetic::power2::lemma2_to64();
            lemma_pow2_unfold((i + 1) as nat);
            if i < 14 {
                vstd::arithmetic::power2::lemma_pow2_strictly_increases((i + 1) as nat, 15);
            }
        }
        pos = pos * 2;
        i = i + 1;
    }
    if i <= 14 && file_size > 1024 && pos < file_size - 1024 {
        Probe::Read(pos)
    } else if first.len() >= 16 {
        Probe::Found(fallback)
    } else {
        Probe::Bad
    }
}

} // verus!
