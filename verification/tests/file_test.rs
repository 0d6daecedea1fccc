use bbolt::batch::{batch_delay, run_calls, BatchState, BatchStep, RunStep};
use bbolt::bench::{make_key, make_val, XorShift64};
use bbolt::error::Error;
use bbolt::file::{choose_page_size, ensure_mapped, flock, get_page_size, grow, grow_size, mmap_size, os_page_size, pick_meta, remap, LockStep, Options, Probe};
use bbolt::freelist::Freelist;
use bbolt::freeset::FreelistType;
use bbolt::fresh::init_file;
use bbolt::lifecycle::{begin, load_freelist, read_page};
use bbolt::node::Pages;
use bbolt::reclaim::free_pages;
use bbolt::text::{hex_key, push_decimal, push_hex_padded, push_list};

fn text_of(e: Error) -> String {
    e.message()
}

#[test]
fn page_size_is_that_of_the_system_or_as_asked() {
    assert_eq!(os_page_size(16384), 16384);
    assert_eq!(os_page_size(0), 4096);
    assert_eq!(os_page_size(-1), 4096);
    assert_eq!(choose_page_size(0, 4096).unwrap(), 4096);
    assert_eq!(choose_page_size(1024, 4096).unwrap(), 1024);
    assert_eq!(
        text_of(choose_page_size(512, 4096).unwrap_err()),
        "page size must be a power of two >= 1024, got 512"
    );
    assert_eq!(
        text_of(choose_page_size(3000, 4096).unwrap_err()),
        "page size must be a power of two >= 1024, got 3000"
    );
    assert_eq!(Options::new().page_size, 0);
    assert!(Options::new().timeout.is_none());
}

#[test]
fn lock_is_asked_for_until_time_is_up() {
    let busy = (11, 13);
    assert_eq!(flock(0, None, busy, 0, None), LockStep::Locked);
    assert_eq!(flock(-1, Some(9), busy, 0, None), LockStep::Failed);
    assert_eq!(flock(-1, None, busy, 0, None), LockStep::Failed);
    assert_eq!(flock(-1, Some(11), busy, 0, None), LockStep::Retry);
    assert_eq!(flock(-1, Some(13), busy, 0, Some(1_000_000_000)), LockStep::Retry);
    assert_eq!(flock(-1, Some(13), busy, 1_000_000_000, Some(1_000_000_000)), LockStep::TimedOut);
    assert_eq!(flock(-1, Some(11), busy, 0, Some(0)), LockStep::TimedOut);
}

#[test]
fn mapping_grows_in_powers_of_two_and_then_in_gigabytes() {
    assert_eq!(mmap_size(4096, 0).unwrap(), 32768);
    assert_eq!(mmap_size(4096, 32768).unwrap(), 32768);
    assert_eq!(mmap_size(4096, 32769).unwrap(), 65536);
    assert_eq!(mmap_size(4096, 1 << 30).unwrap(), 1 << 30);
    assert_eq!(mmap_size(4096, (1 << 30) + 1).unwrap(), 2 << 30);
    assert_eq!(mmap_size(4096, 3 << 30).unwrap(), 3 << 30);
    assert_eq!(text_of(mmap_size(4096, usize::MAX).unwrap_err()), "mmap too large");
    assert_eq!(remap(4096, 16384, 0).unwrap(), 16384);
    assert_eq!(remap(4096, 100, 0).unwrap(), 8192);
    assert_eq!(remap(4096, 100_000, 0).unwrap(), 100_000);
    assert_eq!(ensure_mapped(8192, true, 16384, 4096), None);
    assert_eq!(ensure_mapped(8192, true, 16384, 9000), Some(16384));
    assert_eq!(ensure_mapped(8192, true, 16384, 20000), Some(20000));
    assert_eq!(ensure_mapped(8192, false, 16384, 4096), Some(16384));
}

#[test]
fn file_grows_by_steps() {
    assert_eq!(grow_size(100, 50, 1000), 100);
    assert_eq!(grow_size(100, 500, 1000), 500);
    assert_eq!(grow_size(100, 5000, 1000), 1100);
    assert_eq!(grow(100, 200, 50, 1000, false), None);
    assert_eq!(grow(300, 200, 50, 1000, false), Some(300));
    assert_eq!(grow(300, 200, 50, 1000, true), None);
}

#[test]
fn page_size_is_read_from_the_metas() {
    let file = init_file(8192);
    assert_eq!(get_page_size(&file[..4096], &Vec::new(), file.len() as u64, 4096), Probe::Found(8192));
    let mut torn = file.clone();
    torn[20] ^= 0xff;
    let mut blocks: Vec<Vec<u8>> = Vec::new();
    let mut places: Vec<u64> = Vec::new();
    let found = loop {
        match get_page_size(&torn[..4096], &blocks, torn.len() as u64, 4096) {
            Probe::Read(at) => {
                places.push(at);
                blocks.push(torn[at as usize..].iter().take(4096).copied().collect());
            },
            other => break other,
        }
    };
    assert_eq!(places, vec![1024, 2048, 4096, 8192]);
    assert_eq!(found, Probe::Found(8192));
    assert_eq!(get_page_size(&[0u8; 64], &Vec::new(), 64, 4096), Probe::Found(4096));
    assert_eq!(get_page_size(&[0u8; 8], &Vec::new(), 8, 4096), Probe::Bad);
}

#[test]
fn newest_intact_meta_is_picked() {
    let file = init_file(4096);
    let meta = pick_meta(&file).unwrap();
    assert_eq!(meta.txid, 1);
    assert_eq!((meta.root.root, meta.freelist, meta.pgid), (3, 2, 4));
    let mut torn = file.clone();
    torn[4096 + 20] ^= 0xff;
    assert_eq!(pick_meta(&torn).unwrap().txid, 0);
    torn[20] ^= 0xff;
    assert!(pick_meta(&torn).is_none());
}

#[test]
fn pages_outside_the_file_are_refused() {
    let file = init_file(4096);
    let pages = Some(Pages { image: &file, page_size: 4096 });
    assert_eq!(read_page(&pages, 3).unwrap().len(), 4096);
    assert!(matches!(read_page(&None, 3), Err(Error::InvalidMapping)));
    assert_eq!(text_of(read_page(&pages, 4).unwrap_err()), "page 4 starts past mmap (16384 bytes)");
    let mut long = file.clone();
    long[3 * 4096 + 12] = 1;
    let pages = Some(Pages { image: &long, page_size: 4096 });
    assert_eq!(text_of(read_page(&pages, 3).unwrap_err()), "page 3 overflow extends past mmap");
}

#[test]
fn transactions_begin_on_open_mapped_files_only() {
    let file = init_file(4096);
    let meta = pick_meta(&file).unwrap();
    let pages = || Some(Pages { image: &file, page_size: 4096 });
    let mut fl = Freelist::new(FreelistType::HashMap);
    load_freelist(&pages(), &meta, &mut fl).unwrap();
    assert!(matches!(begin(false, false, pages(), &meta, &mut fl, true), Err(Error::DatabaseNotOpen)));
    assert!(matches!(begin(true, true, pages(), &meta, &mut fl, true), Err(Error::DatabaseReadOnly)));
    assert!(matches!(begin(true, false, None, &meta, &mut fl, false), Err(Error::InvalidMapping)));
    assert!(matches!(load_freelist(&None, &meta, &mut fl), Err(Error::InvalidMapping)));
    let tx = begin(true, false, pages(), &meta, &mut fl, true).unwrap();
    assert_eq!(tx.id(), 2);
    assert_eq!(tx.size(), 4 * 4096);
    assert_eq!(tx.page_size(), 4096);
    assert_eq!(tx.high_water_mark(), 4);
    assert_eq!(tx.root(0), 3);
    assert!(tx.is_writable());
    let tx = begin(true, true, pages(), &meta, &mut fl, false).unwrap();
    assert_eq!(tx.id(), 1);
    assert!(!tx.is_writable());
}

#[test]
fn pages_outside_the_tree_are_unused() {
    let file = init_file(4096);
    let meta = pick_meta(&file).unwrap();
    let pages = Pages { image: &file, page_size: 4096 };
    assert_eq!(free_pages(&pages, &meta), vec![2]);
}

#[test]
fn calls_wait_until_a_batch_is_full() {
    let mut s = BatchState::default();
    assert_eq!(s.batch(1), BatchStep::Alone);
    assert_eq!(s.batch(3), BatchStep::Schedule);
    assert_eq!(s.batch(3), BatchStep::Wait);
    assert_eq!(s.batch(3), BatchStep::Run);
    assert_eq!(s.drain(), 3);
    assert_eq!(s.drain(), 0);
    assert_eq!(s.batch(3), BatchStep::Schedule);
    assert_eq!(batch_delay(0), 1);
    assert_eq!(batch_delay(10), 10);
}

#[test]
fn call_that_fails_is_run_alone() {
    let mut calls = vec![7, 8, 9];
    assert_eq!(run_calls(&mut calls, Some(0)), RunStep::Alone(7));
    assert_eq!(calls, vec![9, 8]);
    assert_eq!(run_calls(&mut calls, None), RunStep::Answer);
    assert_eq!(calls, vec![9, 8]);
}

#[test]
fn keys_values_and_orders_for_measuring() {
    let mut key = vec![0u8; 10];
    make_key(&mut key, 0x0102_0304);
    assert_eq!(key, vec![0, 0, 0, 0, 0, 0, 1, 2, 3, 4]);
    let mut val = vec![0u8; 4];
    make_val(&mut val, 254);
    assert_eq!(val, vec![254, 255, 0, 1]);
    assert_eq!(XorShift64::new(0).next_u64(), 1082269761);
    assert_eq!(XorShift64::new(43).next_u64(), 46537075435);
    let mut g = XorShift64::new(1);
    assert_eq!(g.perm(5), vec![2, 3, 0, 4, 1]);
    let mut all = g.perm(100);
    all.sort();
    assert_eq!(all, (0..100).collect::<Vec<usize>>());
    assert!(g.perm(0).is_empty());
}

#[test]
fn numbers_and_keys_are_written_out() {
    let mut out = String::new();
    push_decimal(&mut out, 0);
    push_decimal(&mut out, 18446744073709551615);
    assert_eq!(out, "018446744073709551615");
    let mut out = String::new();
    push_hex_padded(&mut out, 0x2f);
    push_hex_padded(&mut out, 0x5);
    push_hex_padded(&mut out, 0x123);
    assert_eq!(out, "2f05123");
    let mut out = String::new();
    push_list(&mut out, &vec![3, 14, 15]);
    assert_eq!(out, "[3, 14, 15]");
    assert_eq!(hex_key(b"\x00az"), "00617a");
}

#[test]
fn errors_have_messages() {
    assert_eq!(text_of(Error::DatabaseNotOpen), "database not open");
    assert_eq!(text_of(Error::Invalid), "invalid database");
    assert_eq!(text_of(Error::InvalidMapping), "database isn't correctly mapped");
    assert_eq!(text_of(Error::VersionMismatch), "version mismatch");
    assert_eq!(text_of(Error::Checksum), "checksum error");
    assert_eq!(text_of(Error::Timeout), "timeout");
    assert_eq!(text_of(Error::TxNotWritable), "tx not writable");
    assert_eq!(text_of(Error::TxClosed), "tx closed");
    assert_eq!(text_of(Error::DatabaseReadOnly), "database is in read-only mode");
    assert_eq!(text_of(Error::FreePagesNotLoaded), "free pages are not pre-loaded");
    assert_eq!(text_of(Error::BucketNotFound), "bucket not found");
    assert_eq!(text_of(Error::BucketExists), "bucket already exists");
    assert_eq!(text_of(Error::BucketNameRequired), "bucket name required");
    assert_eq!(text_of(Error::KeyRequired), "key required");
    assert_eq!(text_of(Error::KeyTooLarge), "key too large");
    assert_eq!(text_of(Error::ValueTooLarge), "value too large");
    assert_eq!(text_of(Error::MaxSizeReached), "database reached maximum size");
    assert_eq!(text_of(Error::IncompatibleValue), "incompatible value");
    assert_eq!(text_of(Error::SameBuckets), "the source and target are the same bucket");
    assert_eq!(
        text_of(Error::DifferentDb),
        "the source and target buckets are in different database files"
    );
    assert_eq!(text_of(Error::ManagedTx), "managed transaction commit/rollback is not allowed");
    assert_eq!(text_of(Error::Corrupt("torn".to_string())), "torn");
    assert_eq!(text_of(Error::Io("gone".to_string())), "gone");
}

#[test]
fn options_that_are_not_given() {
    for o in [Options::default(), Options::new()] {
        assert_eq!(o.timeout, None);
        assert_eq!((o.no_grow_sync, o.no_sync, o.read_only, o.no_freelist_sync), (false, false, false, false));
        assert_eq!((o.page_size, o.initial_mmap_size, o.max_size), (0, 0, 0));
        assert_eq!(o.freelist_type, FreelistType::Array);
        assert!(!o.pre_load_freelist);
    }
}

#[test]
fn free_pages_are_always_loaded_for_writing() {
    for (read_only, pre_load_freelist, loads) in
        [(false, false, true), (false, true, true), (true, false, false), (true, true, true)]
    {
        let o = Options { read_only, pre_load_freelist, ..Options::default() };
        assert_eq!(o.loads_freelist(), loads);
    }
}
