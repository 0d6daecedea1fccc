use std::cell::RefCell;
use std::rc::Rc;

use bbolt::bucket_stats::bucket_stats;
use bbolt::check::{check_tx, CheckOptions};
use bbolt::compact::{copy_steps, cut, weigh, Step};
use bbolt::error::{Error, Result};
use bbolt::file::{choose_page_size, get_page_size, grow, pick_meta, Options, Probe};
use bbolt::freelist::Freelist;
use bbolt::freeset::FreelistType;
use bbolt::fresh::init_file;
use bbolt::lifecycle::{begin, load_freelist};
use bbolt::guard::{can_check, can_load};
use bbolt::inode::branch_at;
use bbolt::node::Pages;
use bbolt::page::{Meta, PageHeader, Pgid, DEFAULT_ALLOC_SIZE, LEAF_PAGE_ELEMENT_SIZE, MAX_KEY_SIZE, MAX_VALUE_SIZE, PAGE_HEADER_SIZE};
use bbolt::scan::KeyValue;
use bbolt::stats::{BucketStats, BucketStructure, PageInfo, Stats};
use bbolt::tx::TxInner;

const PAGE_SIZE: usize = 4096;

/// A database whose file is in memory.
struct Store {
    image: Vec<u8>,
    page_size: usize,
    meta: Meta,
    fl: Freelist,
    stats: Stats,
    opened: bool,
    options: Options,
}

#[derive(Clone)]
struct Db(Rc<RefCell<Store>>);

struct Tx {
    db: Db,
    inner: Rc<RefCell<TxInner<'static>>>,
}

struct Bucket {
    db: Db,
    tx: Rc<RefCell<TxInner<'static>>>,
    id: usize,
}

struct Cursor {
    tx: Rc<RefCell<TxInner<'static>>>,
    inner: bbolt::scan::Cursor,
}

fn leak(image: &[u8]) -> &'static [u8] {
    Box::leak(image.to_vec().into_boxed_slice())
}

impl Db {
    fn open(file: Vec<u8>, options: Options) -> Result<Db> {
        let asked = choose_page_size(options.page_size, 4096)?;
        let (image, page_size) = if file.is_empty() {
            (init_file(asked), asked)
        } else {
            let first: Vec<u8> = file.iter().take(4096).copied().collect();
            let mut blocks: Vec<Vec<u8>> = Vec::new();
            let found = loop {
                match get_page_size(&first, &blocks, file.len() as u64, asked) {
                    Probe::Found(n) => break n,
                    Probe::Read(at) => blocks.push(file.iter().skip(at as usize).take(4096).copied().collect()),
                    Probe::Bad => return Err(Error::Invalid),
                }
            };
            (file, found)
        };
        let meta = match pick_meta(&image) {
            Some(meta) => meta,
            None => return Err(Error::Invalid),
        };
        let mut fl = Freelist::new(options.freelist_type);
        if options.loads_freelist() {
            load_freelist(&Some(Pages { image: &image, page_size }), &meta, &mut fl)?;
        }
        let mut stats = Stats::default();
        stats.free_page_n = fl.free_count();
        let persist = !options.read_only && !options.no_freelist_sync && !meta.is_freelist_persisted();
        let db = Db(Rc::new(RefCell::new(Store { image, page_size, meta, fl, stats, opened: true, options })));
        if persist {
            db.update(|_| Ok(()))?;
        }
        Ok(db)
    }

    fn begin(&self, writable: bool) -> Result<Tx> {
        let mut st = self.0.borrow_mut();
        let pages = Pages { image: leak(&st.image), page_size: st.page_size };
        let (opened, read_only, meta) = (st.opened, st.options.read_only, st.meta.clone());
        let inner = begin(opened, read_only, Some(pages), &meta, &mut st.fl, writable)?;
        Ok(Tx { db: self.clone(), inner: Rc::new(RefCell::new(inner)) })
    }

    fn update<T>(&self, f: impl FnOnce(&Tx) -> Result<T>) -> Result<T> {
        let tx = self.begin(true)?;
        tx.inner.borrow_mut().managed = true;
        let result = f(&tx);
        tx.inner.borrow_mut().managed = false;
        match result {
            Ok(v) => {
                tx.commit()?;
                Ok(v)
            },
            Err(e) => {
                let _ = tx.rollback();
                Err(e)
            },
        }
    }

    fn view<T>(&self, f: impl FnOnce(&Tx) -> Result<T>) -> Result<T> {
        let tx = self.begin(false)?;
        tx.inner.borrow_mut().managed = true;
        let result = f(&tx);
        tx.inner.borrow_mut().managed = false;
        let rolled = tx.rollback();
        match result {
            Ok(v) => {
                rolled?;
                Ok(v)
            },
            Err(e) => Err(e),
        }
    }

    fn is_read_only(&self) -> bool {
        self.0.borrow().options.read_only
    }

    fn stats(&self) -> Stats {
        self.0.borrow().stats.clone()
    }

    fn file(&self) -> Vec<u8> {
        self.0.borrow().image.clone()
    }

    fn close(&self) -> Result<()> {
        self.0.borrow_mut().opened = false;
        Ok(())
    }
}

impl Tx {
    fn at(&self, id: usize) -> Bucket {
        Bucket { db: self.db.clone(), tx: Rc::clone(&self.inner), id }
    }

    fn writable(&self) -> bool {
        self.inner.borrow().is_writable()
    }

    fn high_water_mark(&self) -> Pgid {
        self.inner.borrow().high_water_mark()
    }

    fn cursor(&self) -> Cursor {
        self.at(0).cursor()
    }

    fn bucket(&self, name: &[u8]) -> Option<Bucket> {
        self.at(0).bucket(name)
    }

    fn create_bucket(&self, name: &[u8]) -> Result<Bucket> {
        self.at(0).create_bucket(name)
    }

    fn create_bucket_if_not_exists(&self, name: &[u8]) -> Result<Bucket> {
        self.at(0).create_bucket_if_not_exists(name)
    }

    fn delete_bucket(&self, name: &[u8]) -> Result<()> {
        self.at(0).delete_bucket(name)
    }

    fn move_bucket(&self, name: &[u8], src: Option<&Bucket>, dst: Option<&Bucket>) -> Result<()> {
        let from = src.map(|b| b.id).unwrap_or(0);
        let to = dst.map(|b| b.id).unwrap_or(0);
        self.inner.borrow_mut().move_bucket(from, to, name)
    }

    fn for_each(&self, mut f: impl FnMut(&[u8], &Bucket) -> Result<()>) -> Result<()> {
        let mut c = self.cursor();
        let mut kv = c.first()?;
        while let Some(k) = kv.0.clone() {
            let b = self.bucket(&k).ok_or(Error::BucketNotFound)?;
            f(&k, &b)?;
            kv = c.next()?;
        }
        Ok(())
    }

    fn commit(&self) -> Result<()> {
        let mut guard = self.db.0.borrow_mut();
        let st: &mut Store = &mut guard;
        let mut inner = self.inner.borrow_mut();
        let (max_size, no_sync) = (st.options.max_size, st.options.no_freelist_sync);
        let plan = inner.commit(&mut st.fl, max_size, no_sync);
        let plan = match plan {
            Ok(plan) => plan,
            Err(Error::MaxSizeReached) => {
                inner.rollback_internal(&mut st.fl, &mut st.stats, true, false);
                return Err(Error::MaxSizeReached);
            },
            Err(e) => return Err(e),
        };
        if let Some(size) = plan.grow_to {
            let len = st.image.len();
            if let Some(n) = grow(size as usize, len, len, DEFAULT_ALLOC_SIZE, false) {
                st.image.resize(n, 0);
            }
        }
        for (id, page) in plan.pages.iter() {
            let at = *id as usize * st.page_size;
            st.image[at..at + page.len()].copy_from_slice(page);
        }
        let at = (plan.meta.txid % 2) as usize * st.page_size;
        st.image[at..at + st.page_size].copy_from_slice(&plan.meta_page);
        st.meta = plan.meta.clone();
        inner.close_internal(&mut st.fl, &mut st.stats, true, false);
        Ok(())
    }

    fn rollback(&self) -> Result<()> {
        let mut guard = self.db.0.borrow_mut();
        let st: &mut Store = &mut guard;
        let loaded = st.options.loads_freelist();
        self.inner.borrow_mut().rollback(&mut st.fl, &mut st.stats, loaded, false)
    }

    fn inspect(&self) -> BucketStructure {
        self.inner.borrow_mut().inspect()
    }

    fn page_info(&self, id: Pgid) -> Result<PageInfo> {
        self.inner.borrow().page_info(&self.db.0.borrow().fl, id)
    }

    fn copy_file(&self) -> Vec<u8> {
        self.inner.borrow().write_to()
    }

    fn check(&self) -> Vec<Error> {
        self.check_with(CheckOptions { page_id: 0 })
    }

    fn check_with(&self, options: CheckOptions) -> Vec<Error> {
        let mut guard = self.db.0.borrow_mut();
        let st: &mut Store = &mut guard;
        let pages = Pages { image: leak(&st.image), page_size: st.page_size };
        if !st.options.loads_freelist() {
            st.fl = Freelist::new(st.options.freelist_type);
            load_freelist(&Some(Pages { image: pages.image, page_size: st.page_size }), &st.meta, &mut st.fl).unwrap();
        }
        assert!(can_check(&pages, &self.inner.borrow().meta, options.page_id, 100));
        check_tx(pages, &self.inner.borrow().meta, &st.fl.copy_all(), options)
    }
}

impl Drop for Tx {
    fn drop(&mut self) {
        let mut guard = self.db.0.borrow_mut();
        let st: &mut Store = &mut guard;
        let loaded = st.options.loads_freelist();
        self.inner.borrow_mut().rollback_internal(&mut st.fl, &mut st.stats, loaded, false);
    }
}

impl Bucket {
    fn at(&self, id: usize) -> Bucket {
        Bucket { db: self.db.clone(), tx: Rc::clone(&self.tx), id }
    }

    fn root(&self) -> Pgid {
        self.tx.borrow().root(self.id)
    }

    fn cursor(&self) -> Cursor {
        Cursor { tx: Rc::clone(&self.tx), inner: self.tx.borrow().cursor(self.id) }
    }

    fn bucket(&self, name: &[u8]) -> Option<Bucket> {
        let id = self.tx.borrow_mut().bucket_by_name(self.id, name).ok().flatten()?;
        Some(self.at(id))
    }

    fn create_bucket(&self, name: &[u8]) -> Result<Bucket> {
        let id = self.tx.borrow_mut().create_bucket(self.id, name)?;
        Ok(self.at(id))
    }

    fn create_bucket_if_not_exists(&self, name: &[u8]) -> Result<Bucket> {
        let id = self.tx.borrow_mut().create_bucket_if_not_exists(self.id, name)?;
        Ok(self.at(id))
    }

    fn delete_bucket(&self, name: &[u8]) -> Result<()> {
        let mut guard = self.db.0.borrow_mut();
        let st: &mut Store = &mut guard;
        self.tx.borrow_mut().delete_bucket(self.id, name, &mut st.fl)
    }

    fn get(&self, key: &[u8]) -> Option<Vec<u8>> {
        self.tx.borrow().get(self.id, key).ok().flatten()
    }

    fn put(&self, key: &[u8], value: &[u8]) -> Result<()> {
        self.tx.borrow_mut().put(self.id, key, value)
    }

    fn delete(&self, key: &[u8]) -> Result<()> {
        self.tx.borrow_mut().delete(self.id, key)
    }

    fn sequence(&self) -> u64 {
        self.tx.borrow().sequence(self.id)
    }

    fn set_sequence(&self, v: u64) -> Result<()> {
        self.tx.borrow_mut().set_sequence(self.id, v)
    }

    fn next_sequence(&self) -> Result<u64> {
        self.tx.borrow_mut().next_sequence(self.id)
    }

    fn for_each(&self, f: impl FnMut(&[u8], Option<&[u8]>) -> Result<()>) -> Result<()> {
        let f = RefCell::new(f);
        self.tx.borrow().for_each(self.id, |k: &[u8], v: Option<&[u8]>| (f.borrow_mut())(k, v))
    }

    fn for_each_bucket(&self, f: impl FnMut(&[u8]) -> Result<()>) -> Result<()> {
        let f = RefCell::new(f);
        self.tx.borrow().for_each_bucket(self.id, |k: &[u8]| (f.borrow_mut())(k))
    }

    fn set_fill(&self, split_at: usize, merge_at: usize) {
        self.tx.borrow_mut().set_fill(self.id, split_at, merge_at)
    }

    fn stats(&self) -> BucketStats {
        bucket_stats(&mut self.tx.borrow_mut(), self.id)
    }

    fn move_bucket(&self, name: &[u8], dst: &Bucket) -> Result<()> {
        if !Rc::ptr_eq(&self.db.0, &dst.db.0) {
            return Err(Error::DifferentDb);
        }
        self.tx.borrow_mut().move_bucket(self.id, dst.id, name)
    }
}

impl Cursor {
    fn first(&mut self) -> Result<KeyValue> {
        self.inner.first(&self.tx.borrow())
    }

    fn last(&mut self) -> Result<KeyValue> {
        self.inner.last(&self.tx.borrow())
    }

    fn next(&mut self) -> Result<KeyValue> {
        self.inner.next(&self.tx.borrow())
    }

    fn prev(&mut self) -> Result<KeyValue> {
        self.inner.prev(&self.tx.borrow())
    }

    fn seek(&mut self, key: &[u8]) -> Result<KeyValue> {
        self.inner.seek(&self.tx.borrow(), key)
    }

    fn delete(&mut self) -> Result<()> {
        self.inner.delete(&mut self.tx.borrow_mut())
    }
}

fn default_opts() -> Options {
    Options { page_size: PAGE_SIZE, ..Options::default() }
}

fn open_tmp() -> Db {
    Db::open(Vec::new(), default_opts()).unwrap()
}

fn open_with(options: Options) -> Db {
    Db::open(Vec::new(), options).unwrap()
}

fn reopen(db: &Db, options: Options) -> Db {
    Db::open(db.file(), options).unwrap()
}

fn must_check(db: &Db) {
    db.view(|tx| {
        let errs = tx.check();
        assert!(errs.is_empty(), "check failed: {errs:?}");
        Ok(())
    })
    .unwrap();
}

fn fill_bucket(
    db: &Db,
    bucket: &[u8],
    n: i32,
    key_fn: impl Fn(i32) -> Vec<u8>,
    val_fn: impl Fn(i32) -> Vec<u8>,
) -> Result<()> {
    db.update(|tx| {
        let b = tx.create_bucket_if_not_exists(bucket)?;
        for i in 0..n {
            b.put(&key_fn(i), &val_fn(i))?;
        }
        Ok(())
    })
}

struct MoveCase {
    name: &'static str,
    src_path: &'static [&'static [u8]],
    dst_path: &'static [&'static [u8]],
    bucket_to_move: &'static [u8],
    exist_in_src: bool,
    exist_in_dst: bool,
    incompatible_in_src: bool,
    incompatible_in_dst: bool,
    expected: Option<Error>,
}

fn open_chain(tx: &Tx, path: &[&[u8]]) -> Option<Bucket> {
    if path.is_empty() {
        return None;
    }
    let mut b = if let Some(existing) = tx.bucket(path[0]) {
        existing
    } else {
        let created = tx.create_bucket(path[0]).unwrap();
        populate_sample(&created, 5);
        created
    };
    for &name in &path[1..] {
        b = if let Some(child) = b.bucket(name) {
            child
        } else {
            let child = b.create_bucket(name).unwrap();
            populate_sample(&child, 5);
            child
        };
    }
    Some(b)
}

fn populate_sample(b: &Bucket, n: usize) {
    for i in 0..n {
        b.put(format!("k{i}").as_bytes(), format!("v{i}").as_bytes())
            .unwrap();
    }
}

fn snapshot_bucket(b: &Bucket) -> Vec<(Vec<u8>, Vec<u8>)> {
    let mut out = Vec::new();
    b.for_each(|k, v| {
        out.push((k.to_vec(), v.unwrap().to_vec()));
        Ok(())
    })
    .unwrap();
    out.sort_by(|a, b| a.0.cmp(&b.0));
    out
}

fn create_named_bucket(parent: Option<&Bucket>, tx: &Tx, name: &[u8]) -> Bucket {
    let b = if let Some(p) = parent {
        p.create_bucket(name).unwrap()
    } else {
        tx.create_bucket(name).unwrap()
    };
    populate_sample(&b, 8);
    b
}

fn moved_bucket(tx: &Tx, dst_path: &[&[u8]], name: &[u8]) -> Bucket {
    if dst_path.is_empty() {
        tx.bucket(name).unwrap()
    } else {
        open_chain(tx, dst_path)
            .unwrap()
            .bucket(name)
            .unwrap()
    }
}

fn source_bucket(tx: &Tx, src_path: &[&[u8]], name: &[u8]) -> Bucket {
    if src_path.is_empty() {
        tx.bucket(name).unwrap()
    } else {
        open_chain(tx, src_path).unwrap().bucket(name).unwrap()
    }
}

#[test]
fn test_bucket_get_non_existent() {
    let db = open_tmp();
    db.update(|tx| {
        let b = tx.create_bucket(b"widgets")?;
        assert!(b.get(b"foo").is_none());
        Ok(())
    })
    .unwrap();
}

#[test]
fn test_bucket_put() {
    let db = open_tmp();
    db.update(|tx| {
        let b = tx.create_bucket(b"widgets")?;
        b.put(b"foo", b"bar")?;
        assert_eq!(
            tx.bucket(b"widgets").unwrap().get(b"foo").as_deref(),
            Some(&b"bar"[..])
        );
        Ok(())
    })
    .unwrap();
}

#[test]
fn test_bucket_put_repeat() {
    let db = open_tmp();
    db.update(|tx| {
        let b = tx.create_bucket(b"widgets")?;
        b.put(b"foo", b"bar")?;
        b.put(b"foo", b"baz")?;
        assert_eq!(
            tx.bucket(b"widgets").unwrap().get(b"foo").as_deref(),
            Some(&b"baz"[..])
        );
        Ok(())
    })
    .unwrap();
}

#[test]
fn test_bucket_put_large() {
    let db = open_tmp();
    let count = 100;
    let factor = 200;
    db.update(|tx| {
        let b = tx.create_bucket(b"widgets")?;
        for i in 1..count {
            let key = vec![b'0'; i * factor];
            let val = vec![b'X'; (count - i) * factor];
            b.put(&key, &val)?;
        }
        Ok(())
    })
    .unwrap();
    db.view(|tx| {
        let b = tx.bucket(b"widgets").unwrap();
        for i in 1..count {
            let key = vec![b'0'; i * factor];
            let want = vec![b'X'; (count - i) * factor];
            assert_eq!(b.get(&key).as_deref(), Some(want.as_slice()));
        }
        Ok(())
    })
    .unwrap();
}

#[test]
fn test_bucket_put_incompatible_value() {
    let db = open_tmp();
    db.update(|tx| {
        let b0 = tx.create_bucket(b"widgets")?;
        tx.bucket(b"widgets").unwrap().create_bucket(b"foo")?;
        assert!(matches!(b0.put(b"foo", b"bar"), Err(Error::IncompatibleValue)));
        Ok(())
    })
    .unwrap();
}

#[test]
fn test_bucket_put_read_only() {
    let db = open_tmp();
    db.update(|tx| {
        tx.create_bucket(b"widgets")?;
        Ok(())
    })
    .unwrap();
    db.view(|tx| {
        let b = tx.bucket(b"widgets").unwrap();
        assert!(matches!(b.put(b"foo", b"bar"), Err(Error::TxNotWritable)));
        Ok(())
    })
    .unwrap();
}

#[test]
fn test_bucket_delete() {
    let db = open_tmp();
    db.update(|tx| {
        let b = tx.create_bucket(b"widgets")?;
        b.put(b"foo", b"bar")?;
        b.delete(b"foo")?;
        assert!(b.get(b"foo").is_none());
        Ok(())
    })
    .unwrap();
}

#[test]
fn test_bucket_delete_large() {
    let db = open_tmp();
    db.update(|tx| {
        let b = tx.create_bucket(b"widgets")?;
        for i in 0..100 {
            b.put(format!("{i}").as_bytes(), &vec![b'*'; 1024])?;
        }
        Ok(())
    })
    .unwrap();
    db.update(|tx| {
        let b = tx.bucket(b"widgets").unwrap();
        for i in 0..100 {
            b.delete(format!("{i}").as_bytes())?;
        }
        Ok(())
    })
    .unwrap();
    db.view(|tx| {
        let b = tx.bucket(b"widgets").unwrap();
        for i in 0..100 {
            assert!(b.get(format!("{i}").as_bytes()).is_none());
        }
        Ok(())
    })
    .unwrap();
}

#[test]
fn test_bucket_delete_non_existing() {
    let db = open_tmp();
    db.update(|tx| {
        let b = tx.create_bucket(b"widgets")?;
        b.create_bucket(b"nested")?;
        Ok(())
    })
    .unwrap();
    db.update(|tx| {
        let b = tx.bucket(b"widgets").unwrap();
        b.delete(b"foo")?;
        assert!(b.bucket(b"nested").is_some());
        Ok(())
    })
    .unwrap();
}

#[test]
fn test_bucket_nested() {
    let db = open_tmp();
    db.update(|tx| {
        let b = tx.create_bucket(b"widgets")?;
        b.create_bucket(b"foo")?;
        b.put(b"bar", b"0000")?;
        Ok(())
    })
    .unwrap();
    must_check(&db);
    db.update(|tx| {
        tx.bucket(b"widgets").unwrap().put(b"bar", b"xxxx")?;
        Ok(())
    })
    .unwrap();
    db.update(|tx| {
        let b = tx.bucket(b"widgets").unwrap();
        for i in 0..1000 {
            b.put(format!("{i}").as_bytes(), format!("{i}").as_bytes())?;
        }
        Ok(())
    })
    .unwrap();
    db.update(|tx| {
        tx.bucket(b"widgets")
            .unwrap()
            .bucket(b"foo")
            .unwrap()
            .put(b"baz", b"yyyy")?;
        Ok(())
    })
    .unwrap();
    db.view(|tx| {
        let b = tx.bucket(b"widgets").unwrap();
        assert_eq!(
            b.bucket(b"foo").unwrap().get(b"baz").as_deref(),
            Some(&b"yyyy"[..])
        );
        assert_eq!(b.get(b"bar").as_deref(), Some(&b"xxxx"[..]));
        for i in 0..1000 {
            let s = format!("{i}");
            assert_eq!(b.get(s.as_bytes()).as_deref(), Some(s.as_bytes()));
        }
        Ok(())
    })
    .unwrap();
}

#[test]
fn test_bucket_delete_bucket() {
    let db = open_tmp();
    db.update(|tx| {
        let b = tx.create_bucket(b"widgets")?;
        b.create_bucket(b"foo")?;
        assert!(matches!(b.delete(b"foo"), Err(Error::IncompatibleValue)));
        Ok(())
    })
    .unwrap();
}

#[test]
fn test_bucket_delete_bucket_nested() {
    let db = open_tmp();
    db.update(|tx| {
        let widgets = tx.create_bucket(b"widgets")?;
        let foo = widgets.create_bucket(b"foo")?;
        let bar = foo.create_bucket(b"bar")?;
        bar.put(b"baz", b"bat")?;
        widgets.delete_bucket(b"foo")?;
        Ok(())
    })
    .unwrap();
    db.view(|tx| {
        assert!(tx.bucket(b"widgets").unwrap().bucket(b"foo").is_none());
        Ok(())
    })
    .unwrap();
}

#[test]
fn test_bucket_sequence() {
    let db = open_tmp();
    db.update(|tx| {
        let b = tx.create_bucket(b"widgets")?;
        assert_eq!(b.sequence(), 0);
        assert_eq!(b.next_sequence()?, 1);
        assert_eq!(b.next_sequence()?, 2);
        b.set_sequence(10)?;
        assert_eq!(b.next_sequence()?, 11);
        Ok(())
    })
    .unwrap();
}

#[test]
fn test_bucket_next_sequence() {
    let db = open_tmp();
    db.update(|tx| {
        let b = tx.create_bucket(b"s")?;
        for _ in 0..3 {
            b.next_sequence()?;
        }
        assert_eq!(b.sequence(), 3);
        Ok(())
    })
    .unwrap();
}

#[test]
fn test_bucket_next_sequence_read_only() {
    let db = open_tmp();
    db.update(|tx| {
        tx.create_bucket(b"s")?;
        Ok(())
    })
    .unwrap();
    db.view(|tx| {
        let b = tx.bucket(b"s").unwrap();
        assert!(matches!(b.next_sequence(), Err(Error::TxNotWritable)));
        Ok(())
    })
    .unwrap();
}

#[test]
fn test_bucket_for_each() {
    let db = open_tmp();
    db.update(|tx| {
        let b = tx.create_bucket(b"widgets")?;
        b.put(b"a", b"1")?;
        b.put(b"b", b"2")?;
        b.create_bucket(b"nested")?;
        Ok(())
    })
    .unwrap();
    db.view(|tx| {
        let b = tx.bucket(b"widgets").unwrap();
        let mut keys = Vec::new();
        b.for_each(|k, v| {
            keys.push(k.to_vec());
            if k == b"nested" {
                assert!(v.is_none());
            } else {
                assert!(v.is_some());
            }
            Ok(())
        })?;
        keys.sort();
        assert_eq!(keys, vec![b"a".to_vec(), b"b".to_vec(), b"nested".to_vec()]);
        Ok(())
    })
    .unwrap();
}

#[test]
fn test_bucket_for_each_bucket() {
    let db = open_tmp();
    db.update(|tx| {
        let b = tx.create_bucket(b"widgets")?;
        b.put(b"k", b"v")?;
        b.create_bucket(b"c1")?;
        b.create_bucket(b"c2")?;
        Ok(())
    })
    .unwrap();
    db.view(|tx| {
        let b = tx.bucket(b"widgets").unwrap();
        let mut names = Vec::new();
        b.for_each_bucket(|name| {
            names.push(name.to_vec());
            Ok(())
        })?;
        names.sort();
        assert_eq!(names, vec![b"c1".to_vec(), b"c2".to_vec()]);
        Ok(())
    })
    .unwrap();
}

#[test]
fn test_bucket_for_each_short_circuit() {
    let db = open_tmp();
    db.update(|tx| {
        let b = tx.create_bucket(b"widgets")?;
        b.put(b"a", b"1")?;
        b.put(b"b", b"2")?;
        Ok(())
    })
    .unwrap();
    db.view(|tx| {
        let b = tx.bucket(b"widgets").unwrap();
        let err = b.for_each(|k, _| {
            if k == b"a" {
                return Err(Error::KeyRequired);
            }
            Ok(())
        });
        assert!(matches!(err, Err(Error::KeyRequired)));
        Ok(())
    })
    .unwrap();
}

#[test]
fn test_bucket_put_empty_key() {
    let db = open_tmp();
    db.update(|tx| {
        let b = tx.create_bucket(b"widgets")?;
        assert!(matches!(b.put(b"", b"v"), Err(Error::KeyRequired)));
        Ok(())
    })
    .unwrap();
}

#[test]
fn test_bucket_put_key_too_large() {
    let db = open_tmp();
    db.update(|tx| {
        let b = tx.create_bucket(b"widgets")?;
        let key = vec![0u8; MAX_KEY_SIZE + 1];
        assert!(matches!(b.put(&key, b"v"), Err(Error::KeyTooLarge)));
        Ok(())
    })
    .unwrap();
}

#[test]
fn test_bucket_put_value_too_large() {
    let db = open_tmp();
    db.update(|tx| {
        let b = tx.create_bucket(b"widgets")?;
        let val = vec![0u8; MAX_VALUE_SIZE + 1];
        assert!(matches!(b.put(b"k", &val), Err(Error::ValueTooLarge)));
        Ok(())
    })
    .unwrap();
}

#[test]
fn test_cursor_seek() {
    let db = open_tmp();
    db.update(|tx| {
        let b = tx.create_bucket(b"widgets")?;
        b.put(b"foo", b"0001")?;
        b.put(b"bar", b"0002")?;
        b.put(b"baz", b"0003")?;
        b.create_bucket(b"bkt")?;
        Ok(())
    })
    .unwrap();
    db.view(|tx| {
        let mut c = tx.bucket(b"widgets").unwrap().cursor();
        let (k, v) = c.seek(b"bar").unwrap();
        assert_eq!(k.as_deref(), Some(&b"bar"[..]));
        assert_eq!(v.as_deref(), Some(&b"0002"[..]));

        let (k, v) = c.seek(b"bas").unwrap();
        assert_eq!(k.as_deref(), Some(&b"baz"[..]));
        assert_eq!(v.as_deref(), Some(&b"0003"[..]));

        let (k, _v) = c.seek(b"").unwrap();
        assert_eq!(k.as_deref(), Some(&b"bar"[..]));

        let (k, v) = c.seek(b"zzz").unwrap();
        assert!(k.is_none());
        assert!(v.is_none());

        let (k, v) = c.seek(b"bkt").unwrap();
        assert_eq!(k.as_deref(), Some(&b"bkt"[..]));
        assert!(v.is_none());
        Ok(())
    })
    .unwrap();
}

#[test]
fn test_cursor_delete() {
    let db = open_tmp();
    const COUNT: u64 = 200;
    db.update(|tx| {
        let b = tx.create_bucket(b"widgets")?;
        for i in 0..COUNT {
            let k = i.to_be_bytes();
            b.put(&k, &[0u8; 100])?;
        }
        b.create_bucket(b"sub")?;
        Ok(())
    })
    .unwrap();
    db.update(|tx| {
        let mut c = tx.bucket(b"widgets").unwrap().cursor();
        let bound = (COUNT / 2).to_be_bytes();
        loop {
            let (k, _) = c.first().unwrap();
            let Some(key) = k else { break };
            if key.as_slice() >= bound.as_slice() {
                break;
            }
            c.delete()?;
        }
        c.seek(b"sub").unwrap();
        assert!(matches!(c.delete(), Err(Error::IncompatibleValue)));
        Ok(())
    })
    .unwrap();
    db.view(|tx| {
        let b = tx.bucket(b"widgets").unwrap();
        let mut n = 0;
        b.for_each(|_k, v| {
            if v.is_some() {
                n += 1;
            }
            Ok(())
        })?;
        assert_eq!(n, (COUNT / 2) as usize);
        assert!(b.bucket(b"sub").is_some());
        Ok(())
    })
    .unwrap();
}

#[test]
fn test_cursor_empty_bucket() {
    let db = open_tmp();
    db.update(|tx| {
        tx.create_bucket(b"widgets")?;
        Ok(())
    })
    .unwrap();
    db.view(|tx| {
        let mut c = tx.bucket(b"widgets").unwrap().cursor();
        let (k, v) = c.first().unwrap();
        assert!(k.is_none());
        assert!(v.is_none());
        Ok(())
    })
    .unwrap();
}

#[test]
fn test_cursor_empty_bucket_reverse() {
    let db = open_tmp();
    db.update(|tx| {
        tx.create_bucket(b"widgets")?;
        Ok(())
    })
    .unwrap();
    db.view(|tx| {
        let mut c = tx.bucket(b"widgets").unwrap().cursor();
        let (k, v) = c.last().unwrap();
        assert!(k.is_none());
        assert!(v.is_none());
        Ok(())
    })
    .unwrap();
}

#[test]
fn test_cursor_iterate_leaf() {
    let db = open_tmp();
    db.update(|tx| {
        let b = tx.create_bucket(b"widgets")?;
        b.put(b"baz", b"")?;
        b.put(b"foo", &[0])?;
        b.put(b"bar", &[1])?;
        Ok(())
    })
    .unwrap();
    let tx = db.begin(false).unwrap();
    let mut c = tx.bucket(b"widgets").unwrap().cursor();
    let (k, v) = c.first().unwrap();
    assert_eq!(k.as_deref(), Some(&b"bar"[..]));
    assert_eq!(v.as_deref(), Some(&[1][..]));
    let (k, v) = c.next().unwrap();
    assert_eq!(k.as_deref(), Some(&b"baz"[..]));
    assert_eq!(v.as_deref(), Some(&b""[..]));
    let (k, v) = c.next().unwrap();
    assert_eq!(k.as_deref(), Some(&b"foo"[..]));
    assert_eq!(v.as_deref(), Some(&[0][..]));
    let (k, v) = c.next().unwrap();
    assert!(k.is_none());
    assert!(v.is_none());
    tx.rollback().unwrap();
}

#[test]
fn test_cursor_seek_on_populated_bucket() {
    let db = open_tmp();
    db.update(|tx| {
        let b = tx.create_bucket(b"widgets")?;
        for i in 0..50 {
            b.put(format!("{i:03}").as_bytes(), b"v")?;
        }
        Ok(())
    })
    .unwrap();
    db.view(|tx| {
        let mut c = tx.bucket(b"widgets").unwrap().cursor();
        let (k, _) = c.seek(b"025").unwrap();
        assert_eq!(k.as_deref(), Some(&b"025"[..]));
        while c.next().unwrap().0.is_some() {}
        let (k, _) = c.seek(b"010").unwrap();
        assert_eq!(k.as_deref(), Some(&b"010"[..]));
        Ok(())
    })
    .unwrap();
}

#[test]
fn test_cursor_first_last_basics() {
    let db = open_tmp();
    db.update(|tx| {
        let b = tx.create_bucket(b"widgets")?;
        b.put(b"a", b"1")?;
        b.put(b"b", b"2")?;
        b.put(b"c", b"3")?;
        Ok(())
    })
    .unwrap();
    db.view(|tx| {
        let mut c = tx.bucket(b"widgets").unwrap().cursor();
        let (k, _) = c.first().unwrap();
        assert_eq!(k.as_deref(), Some(&b"a"[..]));
        let (k, _) = c.last().unwrap();
        assert_eq!(k.as_deref(), Some(&b"c"[..]));
        let (k, _) = c.prev().unwrap();
        assert_eq!(k.as_deref(), Some(&b"b"[..]));
        Ok(())
    })
    .unwrap();
}

#[test]
fn test_tx_commit_err_tx_closed() {
    let db = open_tmp();
    let tx = db.begin(true).unwrap();
    tx.create_bucket(b"foo").unwrap();
    tx.commit().unwrap();
    assert!(matches!(tx.commit(), Err(Error::TxClosed)));
}

#[test]
fn test_tx_rollback_err_tx_closed() {
    let db = open_tmp();
    let tx = db.begin(true).unwrap();
    tx.rollback().unwrap();
    assert!(matches!(tx.rollback(), Err(Error::TxClosed)));
}

#[test]
fn test_tx_commit_err_tx_not_writable() {
    let db = open_tmp();
    let tx = db.begin(false).unwrap();
    assert!(matches!(tx.commit(), Err(Error::TxNotWritable)));
    tx.rollback().unwrap();
}

#[test]
fn test_tx_cursor() {
    let db = open_tmp();
    db.update(|tx| {
        tx.create_bucket(b"widgets")?;
        tx.create_bucket(b"woojits")?;
        let mut c = tx.cursor();
        let (k, v) = c.first().unwrap();
        assert_eq!(k.as_deref(), Some(&b"widgets"[..]));
        assert!(v.is_none());
        let (k, v) = c.next().unwrap();
        assert_eq!(k.as_deref(), Some(&b"woojits"[..]));
        assert!(v.is_none());
        let (k, v) = c.next().unwrap();
        assert!(k.is_none());
        assert!(v.is_none());
        Ok(())
    })
    .unwrap();
}

#[test]
fn test_tx_create_bucket_err_tx_not_writable() {
    let db = open_tmp();
    db.view(|tx| {
        assert!(matches!(tx.create_bucket(b"foo"), Err(Error::TxNotWritable)));
        Ok(())
    })
    .unwrap();
}

#[test]
fn test_tx_bucket() {
    let db = open_tmp();
    db.update(|tx| {
        tx.create_bucket(b"widgets")?;
        assert!(tx.bucket(b"widgets").is_some());
        Ok(())
    })
    .unwrap();
}

#[test]
fn test_tx_create_bucket() {
    let db = open_tmp();
    db.update(|tx| {
        tx.create_bucket(b"widgets")?;
        Ok(())
    })
    .unwrap();
    db.view(|tx| {
        assert!(tx.bucket(b"widgets").is_some());
        Ok(())
    })
    .unwrap();
}

#[test]
fn test_tx_create_bucket_if_not_exists() {
    let db = open_tmp();
    db.update(|tx| {
        tx.create_bucket_if_not_exists(b"widgets")?;
        tx.create_bucket_if_not_exists(b"widgets")?;
        Ok(())
    })
    .unwrap();
    db.view(|tx| {
        assert!(tx.bucket(b"widgets").is_some());
        Ok(())
    })
    .unwrap();
}

#[test]
fn test_tx_create_bucket_if_not_exists_err_bucket_name_required() {
    let db = open_tmp();
    db.update(|tx| {
        assert!(matches!(
            tx.create_bucket_if_not_exists(b""),
            Err(Error::BucketNameRequired)
        ));
        Ok(())
    })
    .unwrap();
}

#[test]
fn test_tx_create_bucket_err_bucket_exists() {
    let db = open_tmp();
    db.update(|tx| {
        tx.create_bucket(b"widgets")?;
        Ok(())
    })
    .unwrap();
    db.update(|tx| {
        assert!(matches!(
            tx.create_bucket(b"widgets"),
            Err(Error::BucketExists)
        ));
        Ok(())
    })
    .unwrap();
}

#[test]
fn test_tx_create_bucket_err_bucket_name_required() {
    let db = open_tmp();
    db.update(|tx| {
        assert!(matches!(
            tx.create_bucket(b""),
            Err(Error::BucketNameRequired)
        ));
        Ok(())
    })
    .unwrap();
}

#[test]
fn test_tx_delete_bucket() {
    let db = open_tmp();
    db.update(|tx| {
        tx.create_bucket(b"widgets")?.put(b"foo", b"bar")?;
        Ok(())
    })
    .unwrap();
    db.update(|tx| {
        tx.delete_bucket(b"widgets")?;
        assert!(tx.bucket(b"widgets").is_none());
        Ok(())
    })
    .unwrap();
    db.update(|tx| {
        assert!(tx.create_bucket(b"widgets")?.get(b"foo").is_none());
        Ok(())
    })
    .unwrap();
}

#[test]
fn test_tx_delete_bucket_read_only() {
    let db = open_tmp();
    db.view(|tx| {
        assert!(matches!(
            tx.delete_bucket(b"foo"),
            Err(Error::TxNotWritable)
        ));
        Ok(())
    })
    .unwrap();
}

#[test]
fn test_tx_delete_bucket_not_found() {
    let db = open_tmp();
    db.update(|tx| {
        assert!(matches!(
            tx.delete_bucket(b"widgets"),
            Err(Error::BucketNotFound)
        ));
        Ok(())
    })
    .unwrap();
}

#[test]
fn test_tx_for_each_no_error() {
    let db = open_tmp();
    db.update(|tx| {
        tx.create_bucket(b"widgets")?.put(b"foo", b"bar")?;
        tx.for_each(|_, _| Ok(()))?;
        Ok(())
    })
    .unwrap();
}

#[test]
fn test_tx_for_each_with_error() {
    let db = open_tmp();
    db.update(|tx| {
        tx.create_bucket(b"widgets")?.put(b"foo", b"bar")?;
        let err = tx.for_each(|_, _| Err(Error::KeyRequired));
        assert!(matches!(err, Err(Error::KeyRequired)));
        Ok(())
    })
    .unwrap();
}

#[test]
fn test_tx_rollback() {
    let db = open_tmp();
    db.update(|tx| {
        tx.create_bucket(b"mybucket")?;
        Ok(())
    })
    .unwrap();
    let tx = db.begin(true).unwrap();
    tx.bucket(b"mybucket").unwrap().put(b"k", b"v").unwrap();
    tx.rollback().unwrap();
    db.view(|tx| {
        assert!(tx.bucket(b"mybucket").unwrap().get(b"k").is_none());
        Ok(())
    })
    .unwrap();
}

#[test]
fn test_tx_get_not_found() {
    let db = open_tmp();
    db.update(|tx| {
        let b = tx.create_bucket(b"widgets")?;
        b.put(b"foo", b"bar")?;
        assert!(b.get(b"no_such_key").is_none());
        Ok(())
    })
    .unwrap();
}

#[test]
fn test_tx_create_bucket_err_tx_closed() {
    let db = open_tmp();
    let tx = db.begin(true).unwrap();
    tx.commit().unwrap();
    assert!(matches!(
        tx.create_bucket(b"foo"),
        Err(Error::TxClosed)
    ));
}

#[test]
fn test_tx_delete_bucket_err_tx_closed() {
    let db = open_tmp();
    let tx = db.begin(true).unwrap();
    tx.commit().unwrap();
    assert!(matches!(tx.delete_bucket(b"foo"), Err(Error::TxClosed)));
}

#[test]
fn test_tx_move_bucket() {
    let cases = [
        MoveCase {
            name: "normal case",
            src_path: &[b"sb1", b"sb2"],
            dst_path: &[b"db1", b"db2"],
            bucket_to_move: b"bucketToMove",
            exist_in_src: true,
            exist_in_dst: false,
            incompatible_in_src: false,
            incompatible_in_dst: false,
            expected: None,
        },
        MoveCase {
            name: "shared grandparent",
            src_path: &[b"grandparent", b"sb2"],
            dst_path: &[b"grandparent", b"db2"],
            bucket_to_move: b"bucketToMove",
            exist_in_src: true,
            exist_in_dst: false,
            incompatible_in_src: false,
            incompatible_in_dst: false,
            expected: None,
        },
        MoveCase {
            name: "top level bucket",
            src_path: &[],
            dst_path: &[b"db1", b"db2"],
            bucket_to_move: b"bucketToMove",
            exist_in_src: true,
            exist_in_dst: false,
            incompatible_in_src: false,
            incompatible_in_dst: false,
            expected: None,
        },
        MoveCase {
            name: "convert to top level",
            src_path: &[b"sb1", b"sb2"],
            dst_path: &[],
            bucket_to_move: b"bucketToMove",
            exist_in_src: true,
            exist_in_dst: false,
            incompatible_in_src: false,
            incompatible_in_dst: false,
            expected: None,
        },
        MoveCase {
            name: "not exist in source",
            src_path: &[b"sb1", b"sb2"],
            dst_path: &[b"db1", b"db2"],
            bucket_to_move: b"bucketToMove",
            exist_in_src: false,
            exist_in_dst: false,
            incompatible_in_src: false,
            incompatible_in_dst: false,
            expected: Some(Error::BucketNotFound),
        },
        MoveCase {
            name: "exist in target",
            src_path: &[b"sb1", b"sb2"],
            dst_path: &[b"db1", b"db2"],
            bucket_to_move: b"bucketToMove",
            exist_in_src: true,
            exist_in_dst: true,
            incompatible_in_src: false,
            incompatible_in_dst: false,
            expected: Some(Error::BucketExists),
        },
        MoveCase {
            name: "incompatible key in source",
            src_path: &[b"sb1", b"sb2"],
            dst_path: &[b"db1", b"db2"],
            bucket_to_move: b"bucketToMove",
            exist_in_src: false,
            exist_in_dst: false,
            incompatible_in_src: true,
            incompatible_in_dst: false,
            expected: Some(Error::IncompatibleValue),
        },
        MoveCase {
            name: "incompatible key in target",
            src_path: &[b"sb1", b"sb2"],
            dst_path: &[b"db1", b"db2"],
            bucket_to_move: b"bucketToMove",
            exist_in_src: true,
            exist_in_dst: false,
            incompatible_in_src: false,
            incompatible_in_dst: true,
            expected: Some(Error::IncompatibleValue),
        },
        MoveCase {
            name: "same bucket",
            src_path: &[b"sb1", b"sb2"],
            dst_path: &[b"sb1", b"sb2"],
            bucket_to_move: b"bucketToMove",
            exist_in_src: true,
            exist_in_dst: false,
            incompatible_in_src: false,
            incompatible_in_dst: false,
            expected: Some(Error::SameBuckets),
        },
        MoveCase {
            name: "both root",
            src_path: &[],
            dst_path: &[],
            bucket_to_move: b"bucketToMove",
            exist_in_src: true,
            exist_in_dst: false,
            incompatible_in_src: false,
            incompatible_in_dst: false,
            expected: Some(Error::SameBuckets),
        },
    ];

    for tc in cases {
        let db = open_tmp();
        db.update(|tx| {
            let src = open_chain(tx, tc.src_path);
            let dst = open_chain(tx, tc.dst_path);
            if tc.exist_in_src {
                create_named_bucket(src.as_ref(), tx, tc.bucket_to_move);
            }
            if tc.exist_in_dst {
                create_named_bucket(dst.as_ref(), tx, tc.bucket_to_move);
            }
            if tc.incompatible_in_src {
                open_chain(tx, tc.src_path)
                    .unwrap()
                    .put(tc.bucket_to_move, b"bar")?;
            }
            if tc.incompatible_in_dst {
                open_chain(tx, tc.dst_path)
                    .unwrap()
                    .put(tc.bucket_to_move, b"bar")?;
            }
            Ok(())
        })
        .unwrap();

        let before = db
            .view(|tx| {
                if tc.expected.is_none() && tc.exist_in_src {
                    Ok(Some(snapshot_bucket(&source_bucket(
                        tx,
                        tc.src_path,
                        tc.bucket_to_move,
                    ))))
                } else {
                    Ok(None)
                }
            })
            .unwrap();

        db.update(|tx| {
            let src = open_chain(tx, tc.src_path);
            let dst = open_chain(tx, tc.dst_path);
            let err = tx.move_bucket(
                tc.bucket_to_move,
                src.as_ref(),
                dst.as_ref(),
            );
            match (&tc.expected, err) {
                (None, Ok(())) => {}
                (Some(exp), Err(got)) if got.message() == exp.message() => {}
                (other, got) => panic!("case {}: expected {:?}, got {:?}", tc.name, other, got),
            }
            Ok(())
        })
        .unwrap();

        if tc.expected.is_none() {
            let after = db
                .view(|tx| Ok(snapshot_bucket(&moved_bucket(
                    tx,
                    tc.dst_path,
                    tc.bucket_to_move,
                ))))
                .unwrap();
            assert_eq!(before.unwrap(), after, "case {}", tc.name);
        }
    }
}

#[test]
fn test_bucket_move_bucket_diff_tx() {
    let db = open_tmp();
    db.update(|tx| {
        open_chain(tx, &[b"sb1", b"sb2"]);
        open_chain(tx, &[b"db1", b"db2"]);
        Ok(())
    })
    .unwrap();
    let s_tx = db.begin(false).unwrap();
    let src = open_chain(&s_tx, &[b"sb1", b"sb2"]).unwrap();
    let d_tx = db.begin(true).unwrap();
    let dst = open_chain(&d_tx, &[b"db1", b"db2"]).unwrap();
    assert!(matches!(
        src.move_bucket(b"bucketToMove", &dst),
        Err(Error::TxNotWritable)
    ));
}

#[test]
fn create_open_put_get() {
    let db = open_tmp();
    db.update(|tx| {
        let b = tx.create_bucket(b"widgets")?;
        b.put(b"foo", b"bar")?;
        assert_eq!(b.get(b"foo").as_deref(), Some(&b"bar"[..]));
        Ok(())
    })
    .unwrap();

    db.view(|tx| {
        let b = tx.bucket(b"widgets").expect("bucket");
        assert_eq!(b.get(b"foo").as_deref(), Some(&b"bar"[..]));
        assert!(b.get(b"missing").is_none());
        Ok(())
    })
    .unwrap();
}

#[test]
fn delete_and_overwrite() {
    let db = open_tmp();
    db.update(|tx| {
        let b = tx.create_bucket(b"b")?;
        b.put(b"a", b"1")?;
        b.put(b"a", b"2")?;
        assert_eq!(b.get(b"a").as_deref(), Some(&b"2"[..]));
        b.delete(b"a")?;
        assert!(b.get(b"a").is_none());
        b.delete(b"missing")?;
        Ok(())
    })
    .unwrap();
}

#[test]
fn rollback_discards_writes() {
    let db = open_tmp();
    db.update(|tx| {
        tx.create_bucket(b"keep")?.put(b"x", b"y")?;
        Ok(())
    })
    .unwrap();

    let tx = db.begin(true).unwrap();
    tx.create_bucket(b"gone").unwrap().put(b"a", b"b").unwrap();
    tx.rollback().unwrap();

    db.view(|tx| {
        assert!(tx.bucket(b"gone").is_none());
        assert_eq!(
            tx.bucket(b"keep").unwrap().get(b"x").as_deref(),
            Some(&b"y"[..])
        );
        Ok(())
    })
    .unwrap();
}

#[test]
fn update_error_rolls_back() {
    let db = open_tmp();
    let err: Result<()> = db.update(|tx| {
        tx.create_bucket(b"b")?.put(b"k", b"v")?;
        Err(Error::KeyRequired)
    });
    assert!(matches!(err, Err(Error::KeyRequired)));
    db.view(|tx| {
        assert!(tx.bucket(b"b").is_none());
        Ok(())
    })
    .unwrap();
}

#[test]
fn nested_buckets() {
    let db = open_tmp();
    db.update(|tx| {
        let users = tx.create_bucket(b"users")?;
        users.put(b"alice", b"data1")?;
        users.put(b"bob", b"data2")?;
        let nested = users.create_bucket(b"nested")?;
        nested.put(b"x", b"y")?;
        Ok(())
    })
    .unwrap();

    db.view(|tx| {
        let users = tx.bucket(b"users").unwrap();
        assert_eq!(users.get(b"alice").as_deref(), Some(&b"data1"[..]));
        assert_eq!(users.get(b"bob").as_deref(), Some(&b"data2"[..]));
        assert!(users.get(b"nested").is_none());
        let nested = users.bucket(b"nested").unwrap();
        assert_eq!(nested.get(b"x").as_deref(), Some(&b"y"[..]));
        Ok(())
    })
    .unwrap();
}

#[test]
fn cursor_iteration() {
    let db = open_tmp();
    db.update(|tx| {
        let b = tx.create_bucket(b"letters")?;
        b.put(b"b", b"2")?;
        b.put(b"a", b"1")?;
        b.put(b"c", b"3")?;
        Ok(())
    })
    .unwrap();

    db.view(|tx| {
        let b = tx.bucket(b"letters").unwrap();
        let mut c = b.cursor();
        let (k, v) = c.first().unwrap();
        assert_eq!(k.as_deref(), Some(&b"a"[..]));
        assert_eq!(v.as_deref(), Some(&b"1"[..]));
        let (k, v) = c.next().unwrap();
        assert_eq!(k.as_deref(), Some(&b"b"[..]));
        assert_eq!(v.as_deref(), Some(&b"2"[..]));
        let (k, v) = c.next().unwrap();
        assert_eq!(k.as_deref(), Some(&b"c"[..]));
        assert_eq!(v.as_deref(), Some(&b"3"[..]));
        assert!(c.next().unwrap().0.is_none());

        let (k, _) = c.last().unwrap();
        assert_eq!(k.as_deref(), Some(&b"c"[..]));
        let (k, _) = c.prev().unwrap();
        assert_eq!(k.as_deref(), Some(&b"b"[..]));

        let (k, v) = c.seek(b"b").unwrap();
        assert_eq!(k.as_deref(), Some(&b"b"[..]));
        assert_eq!(v.as_deref(), Some(&b"2"[..]));
        let (k, _) = c.seek(b"bb").unwrap();
        assert_eq!(k.as_deref(), Some(&b"c"[..]));
        assert!(c.seek(b"z").unwrap().0.is_none());
        Ok(())
    })
    .unwrap();
}

#[test]
fn sequences() {
    let db = open_tmp();
    db.update(|tx| {
        let b = tx.create_bucket(b"s")?;
        assert_eq!(b.sequence(), 0);
        assert_eq!(b.next_sequence().unwrap(), 1);
        assert_eq!(b.next_sequence().unwrap(), 2);
        b.set_sequence(10)?;
        assert_eq!(b.next_sequence().unwrap(), 11);
        Ok(())
    })
    .unwrap();
    db.view(|tx| {
        assert_eq!(tx.bucket(b"s").unwrap().sequence(), 11);
        Ok(())
    })
    .unwrap();
}

#[test]
fn delete_many_rebalance() {
    let db = open_tmp();
    db.update(|tx| {
        let b = tx.create_bucket(b"d")?;
        for i in 0..200u32 {
            let k = format!("{i:04}");
            b.put(k.as_bytes(), b"x")?;
        }
        Ok(())
    })
    .unwrap();
    db.update(|tx| {
        let b = tx.bucket(b"d").unwrap();
        for i in 0..200u32 {
            if i % 2 == 0 {
                let k = format!("{i:04}");
                b.delete(k.as_bytes())?;
            }
        }
        Ok(())
    })
    .unwrap();
    db.view(|tx| {
        let b = tx.bucket(b"d").unwrap();
        assert!(b.get(b"0000").is_none());
        assert_eq!(b.get(b"0001").as_deref(), Some(&b"x"[..]));
        Ok(())
    })
    .unwrap();
}

#[test]
fn errors_on_incompatible_and_readonly() {
    let db = open_tmp();
    db.update(|tx| {
        let b = tx.create_bucket(b"b")?;
        b.put(b"k", b"v")?;
        assert!(matches!(
            b.create_bucket(b"k"),
            Err(Error::IncompatibleValue)
        ));
        let sub = b.create_bucket(b"sub")?;
        assert!(matches!(b.put(b"sub", b"x"), Err(Error::IncompatibleValue)));
        assert!(matches!(b.delete(b"sub"), Err(Error::IncompatibleValue)));
        assert!(sub.get(b"x").is_none());
        Ok(())
    })
    .unwrap();

    db.view(|tx| {
        let b = tx.bucket(b"b").unwrap();
        assert!(matches!(b.put(b"a", b"b"), Err(Error::TxNotWritable)));
        Ok(())
    })
    .unwrap();

    assert!(db.begin(true).unwrap().rollback().is_ok());
}

#[test]
fn empty_key_rejected() {
    let db = open_tmp();
    db.update(|tx| {
        let b = tx.create_bucket(b"b")?;
        assert!(matches!(b.put(b"", b"v"), Err(Error::KeyRequired)));
        assert!(matches!(
            tx.create_bucket(b""),
            Err(Error::BucketNameRequired)
        ));
        Ok(())
    })
    .unwrap();
}

#[test]
fn create_bucket_if_not_exists() {
    let db = open_tmp();
    db.update(|tx| {
        let b1 = tx.create_bucket_if_not_exists(b"b")?;
        b1.put(b"k", b"v")?;
        let b2 = tx.create_bucket_if_not_exists(b"b")?;
        assert_eq!(b2.get(b"k").as_deref(), Some(&b"v"[..]));
        Ok(())
    })
    .unwrap();
}

#[test]
fn for_each_and_top_level() {
    let db = open_tmp();
    db.update(|tx| {
        tx.create_bucket(b"a")?.put(b"1", b"one")?;
        tx.create_bucket(b"b")?.put(b"2", b"two")?;
        Ok(())
    })
    .unwrap();
    db.view(|tx| {
        let mut names = Vec::new();
        tx.for_each(|name, b| {
            names.push(name.to_vec());
            assert!(b.get(if name == b"a" { b"1" } else { b"2" }).is_some());
            Ok(())
        })?;
        names.sort();
        assert_eq!(names, vec![b"a".to_vec(), b"b".to_vec()]);
        Ok(())
    })
    .unwrap();
}

#[test]
fn delete_bucket() {
    let db = open_tmp();
    db.update(|tx| {
        let b = tx.create_bucket(b"p")?;
        b.create_bucket(b"c")?.put(b"k", b"v")?;
        tx.delete_bucket(b"p")?;
        assert!(tx.bucket(b"p").is_none());
        Ok(())
    })
    .unwrap();
}

#[test]
fn large_value_overflow() {
    let db = open_tmp();
    let big = vec![0xABu8; 10_000];
    db.update(|tx| {
        let b = tx.create_bucket(b"b")?;
        b.put(b"big", &big)?;
        Ok(())
    })
    .unwrap();
    db.view(|tx| {
        let got = tx.bucket(b"b").unwrap().get(b"big").unwrap();
        assert_eq!(got, big);
        Ok(())
    })
    .unwrap();
}

#[test]
fn test_db_begin_rw() {
    let db = open_tmp();
    let tx = db.begin(true).unwrap();
    assert!(tx.writable());
    tx.commit().unwrap();
}

#[test]
fn test_db_update() {
    let db = open_tmp();
    db.update(|tx| {
        let b = tx.create_bucket(b"widgets")?;
        b.put(b"foo", b"bar")?;
        b.put(b"baz", b"bat")?;
        b.delete(b"foo")?;
        Ok(())
    })
    .unwrap();
    db.view(|tx| {
        let b = tx.bucket(b"widgets").unwrap();
        assert!(b.get(b"foo").is_none());
        assert_eq!(b.get(b"baz").as_deref(), Some(&b"bat"[..]));
        Ok(())
    })
    .unwrap();
}

#[test]
fn test_db_update_manual_commit() {
    let db = open_tmp();
    let tx = db.begin(true).unwrap();
    tx.create_bucket(b"widgets")
        .unwrap()
        .put(b"foo", b"bar")
        .unwrap();
    tx.commit().unwrap();
    db.view(|tx| {
        assert_eq!(
            tx.bucket(b"widgets").unwrap().get(b"foo").as_deref(),
            Some(&b"bar"[..])
        );
        Ok(())
    })
    .unwrap();
}

#[test]
fn test_db_update_manual_rollback() {
    let db = open_tmp();
    let tx = db.begin(true).unwrap();
    tx.create_bucket(b"widgets").unwrap().put(b"foo", b"bar").unwrap();
    tx.rollback().unwrap();
    db.view(|tx| {
        assert!(tx.bucket(b"widgets").is_none());
        Ok(())
    })
    .unwrap();
}

#[test]
fn test_db_view_manual_commit() {
    let db = open_tmp();
    db.update(|tx| {
        tx.create_bucket(b"widgets")?.put(b"foo", b"bar")?;
        Ok(())
    })
    .unwrap();
    let tx = db.begin(false).unwrap();
    assert_eq!(
        tx.bucket(b"widgets").unwrap().get(b"foo").as_deref(),
        Some(&b"bar"[..])
    );
    assert!(matches!(tx.commit(), Err(Error::TxNotWritable)));
    tx.rollback().unwrap();
}

#[test]
fn test_db_view_manual_rollback() {
    let db = open_tmp();
    db.update(|tx| {
        tx.create_bucket(b"widgets")?.put(b"foo", b"bar")?;
        Ok(())
    })
    .unwrap();
    let tx = db.begin(false).unwrap();
    assert_eq!(
        tx.bucket(b"widgets").unwrap().get(b"foo").as_deref(),
        Some(&b"bar"[..])
    );
    tx.rollback().unwrap();
}

#[test]
fn test_db_view_error() {
    let db = open_tmp();
    let err: Result<()> = db.view(|_| Err(Error::KeyRequired));
    assert!(matches!(err, Err(Error::KeyRequired)));
}

#[test]
fn test_db_stats() {
    let db = open_tmp();
    db.update(|tx| {
        tx.create_bucket(b"widgets")?;
        Ok(())
    })
    .unwrap();
    let stats = db.stats();
    assert_eq!(stats.free_page_n, 0);
}

#[test]
fn test_tx_allocate_page_growth() {
    let db = open_tmp();
    let before = db.view(|tx| Ok(tx.high_water_mark())).unwrap();
    db.update(|tx| {
        let b = tx.create_bucket(b"big")?;
        // Force page growth with many keys.
        for i in 0..500u32 {
            b.put(&i.to_be_bytes(), &i.to_be_bytes())?;
        }
        Ok(())
    })
    .unwrap();
    let after = db.view(|tx| Ok(tx.high_water_mark())).unwrap();
    assert!(after > before, "hwm {before} -> {after}");
    must_check(&db);
}

#[test]
fn test_bucket_next_sequence_persist() {
    let db = open_tmp();
    db.update(|tx| {
        tx.create_bucket(b"s")?.next_sequence()?;
        Ok(())
    })
    .unwrap();
    db.close().unwrap();
    let db = reopen(&db, default_opts());
    db.view(|tx| {
        assert_eq!(tx.bucket(b"s").unwrap().sequence(), 1);
        Ok(())
    })
    .unwrap();
}

#[test]
fn test_tx_check_read_only() {
    let db = open_tmp();
    db.update(|tx| {
        tx.create_bucket(b"widgets")?.put(b"foo", b"bar")?;
        Ok(())
    })
    .unwrap();
    db.close().unwrap();
    let db = reopen(&db, Options { page_size: PAGE_SIZE, read_only: true, ..Options::default() });
    let tx = db.begin(false).unwrap();
    for _ in 0..2 {
        let errs = tx.check();
        assert!(errs.is_empty(), "{errs:?}");
    }
    tx.rollback().unwrap();
}

#[test]
fn test_tx_release_range() {
    let db = open_with(Options {
        initial_mmap_size: PAGE_SIZE * 100,
        page_size: PAGE_SIZE,
        ..Options::default()
    });
    let bucket = b"bucket";

    let put = |db: &Db, key: &[u8], value: &[u8]| {
        db.update(|tx| {
            let b = tx.create_bucket_if_not_exists(bucket)?;
            b.put(key, value)?;
            Ok(())
        })
        .unwrap();
    };
    let del = |db: &Db, key: &[u8]| {
        db.update(|tx| {
            tx.bucket(bucket).unwrap().delete(key)?;
            Ok(())
        })
        .unwrap();
    };
    let get = |tx: &Tx, key: &[u8]| -> Option<Vec<u8>> { tx.bucket(bucket).unwrap().get(key) };

    put(&db, b"k1", b"v1");
    let rtx1 = db.begin(false).unwrap();
    put(&db, b"k2", b"v2");
    let hold1 = db.begin(false).unwrap();
    put(&db, b"k3", b"v3");
    let hold2 = db.begin(false).unwrap();
    del(&db, b"k3");
    let rtx2 = db.begin(false).unwrap();
    del(&db, b"k1");
    let hold3 = db.begin(false).unwrap();
    del(&db, b"k2");
    let hold4 = db.begin(false).unwrap();
    put(&db, b"k4", b"v4");
    let hold5 = db.begin(false).unwrap();

    hold1.rollback().unwrap();
    hold2.rollback().unwrap();
    hold3.rollback().unwrap();
    hold4.rollback().unwrap();
    hold5.rollback().unwrap();

    put(&db, b"k4", b"v4");

    assert_eq!(get(&rtx1, b"k1").as_deref(), Some(&b"v1"[..]));
    assert_eq!(get(&rtx2, b"k2").as_deref(), Some(&b"v2"[..]));
    rtx1.rollback().unwrap();
    rtx2.rollback().unwrap();

    let rtx7 = db.begin(false).unwrap();
    assert!(get(&rtx7, b"k1").is_none());
    assert!(get(&rtx7, b"k2").is_none());
    assert!(get(&rtx7, b"k3").is_none());
    assert_eq!(get(&rtx7, b"k4").as_deref(), Some(&b"v4"[..]));
    rtx7.rollback().unwrap();
}

#[test]
fn test_bucket_move_bucket_diff_db() {
    let src_db = open_tmp();
    src_db
        .update(|tx| {
            open_chain(tx, &[b"sb1", b"sb2"]);
            Ok(())
        })
        .unwrap();
    let dst_db = open_tmp();
    dst_db
        .update(|tx| {
            open_chain(tx, &[b"db1", b"db2"]);
            Ok(())
        })
        .unwrap();
    let src_db = reopen(&src_db, default_opts());
    let dst_db = reopen(&dst_db, default_opts());
    let s_tx = src_db.begin(true).unwrap();
    let src = open_chain(&s_tx, &[b"sb1", b"sb2"]).unwrap();
    let d_tx = dst_db.begin(true).unwrap();
    let dst = open_chain(&d_tx, &[b"db1", b"db2"]).unwrap();
    assert!(matches!(
        src.move_bucket(b"bucketToMove", &dst),
        Err(Error::DifferentDb)
    ));
}

#[test]
fn persist_across_reopen() {
    let db = open_tmp();
    db.update(|tx| {
        let b = tx.create_bucket(b"data")?;
        b.put(b"k", b"v")?;
        b.put(b"k2", b"v2")?;
        Ok(())
    })
    .unwrap();
    db.close().unwrap();
    let db = reopen(&db, default_opts());
    db.view(|tx| {
        let b = tx.bucket(b"data").unwrap();
        assert_eq!(b.get(b"k").as_deref(), Some(&b"v"[..]));
        assert_eq!(b.get(b"k2").as_deref(), Some(&b"v2"[..]));
        Ok(())
    })
    .unwrap();
}

#[test]
fn many_keys_split_and_reopen() {
    let db = open_tmp();
    db.update(|tx| {
        let b = tx.create_bucket(b"big")?;
        for i in 0..500u32 {
            let k = format!("key-{i:04}");
            let v = format!("val-{i:04}");
            b.put(k.as_bytes(), v.as_bytes())?;
        }
        Ok(())
    })
    .unwrap();
    db.close().unwrap();
    let db = reopen(&db, default_opts());
    db.view(|tx| {
        let b = tx.bucket(b"big").unwrap();
        assert_eq!(b.get(b"key-0000").as_deref(), Some(&b"val-0000"[..]));
        assert_eq!(b.get(b"key-0250").as_deref(), Some(&b"val-0250"[..]));
        assert_eq!(b.get(b"key-0499").as_deref(), Some(&b"val-0499"[..]));
        let mut c = b.cursor();
        let mut n = 0;
        let mut prev: Option<Vec<u8>> = None;
        let mut kv = c.first().unwrap();
        while let Some(k) = kv.0.clone() {
            if let Some(p) = &prev {
                assert!(k.as_slice() > p.as_slice(), "keys must be sorted");
            }
            prev = Some(k);
            n += 1;
            kv = c.next().unwrap();
        }
        assert_eq!(n, 500);
        Ok(())
    })
    .unwrap();
}

#[test]
fn magic_and_version_on_disk() {
    let db = open_tmp();
    db.close().unwrap();
    let bytes = db.file();
    assert_eq!(&bytes[16..20], &bbolt::page::MAGIC.to_le_bytes());
    assert_eq!(&bytes[20..24], &bbolt::page::VERSION.to_le_bytes());
}

#[test]
fn test_open_err_invalid() {
    let file = b"this is not a bolt database\n".to_vec();
    assert!(matches!(Db::open(file, default_opts()), Err(Error::Invalid)));
}

#[test]
fn test_open_read_only() {
    let db = open_tmp();
    db.update(|tx| {
        tx.create_bucket(b"widgets")?.put(b"foo", b"bar")?;
        Ok(())
    })
    .unwrap();
    db.close().unwrap();
    let db = reopen(&db, Options { page_size: PAGE_SIZE, read_only: true, ..Options::default() });
    assert!(db.is_read_only());
    db.view(|tx| {
        assert_eq!(
            tx.bucket(b"widgets").unwrap().get(b"foo").as_deref(),
            Some(&b"bar"[..])
        );
        Ok(())
    })
    .unwrap();
    assert!(matches!(db.begin(true), Err(Error::DatabaseReadOnly)));
    db.close().unwrap();
}

#[test]
fn test_open_recover_free_list() {
    let unsynced = Options { page_size: PAGE_SIZE, no_freelist_sync: true, ..Options::default() };
    let db = open_with(unsynced.clone());
    let tx = db.begin(true).unwrap();
    let wbuf = vec![0u8; 8192];
    for i in 0..100 {
        let s = format!("{i}");
        let b = tx.create_bucket(s.as_bytes()).unwrap();
        b.put(s.as_bytes(), &wbuf).unwrap();
    }
    tx.commit().unwrap();

    let tx = db.begin(true).unwrap();
    for i in 0..50 {
        let s = format!("{i}");
        tx.bucket(s.as_bytes()).unwrap().delete(s.as_bytes()).unwrap();
    }
    tx.commit().unwrap();
    db.close().unwrap();

    let db = reopen(&db, unsynced);
    let freepages = db.stats().free_page_n;
    assert!(freepages > 0, "no free pages on NoFreelistSync reopen");
    db.close().unwrap();

    let db = reopen(&db, Options { page_size: PAGE_SIZE, no_freelist_sync: false, ..Options::default() });
    let recovered = db.stats().free_page_n;
    assert!(
        recovered >= freepages.saturating_sub(1),
        "closed with {freepages} free pages, opened with {recovered}"
    );
}

#[test]
fn test_db_open_initial_mmap_size_basic() {
    let db = open_with(Options {
        page_size: PAGE_SIZE,
        initial_mmap_size: 64 * 1024 * 1024,
        ..Options::default()
    });
    let wtx = db.begin(true).unwrap();
    let b = wtx.create_bucket(b"test").unwrap();
    let big = vec![0u8; 512 * 1024];
    b.put(b"foo", &big).unwrap();
    wtx.commit().unwrap();
}

#[test]
fn test_open_check() {
    let db = open_tmp();
    db.view(|tx| {
        assert!(tx.check().is_empty());
        Ok(())
    })
    .unwrap();
    db.close().unwrap();
    let db = reopen(&db, default_opts());
    db.view(|tx| {
        assert!(tx.check().is_empty());
        Ok(())
    })
    .unwrap();
}

#[test]
fn test_db_max_size_not_exceeded() {
    let max_size = 512 * 1024;
    let db = open_with(Options { page_size: PAGE_SIZE, max_size, ..Options::default() });
    fill_bucket(
        &db,
        b"data",
        50,
        |k| format!("{k:04}").into_bytes(),
        |_| vec![0u8; 1000],
    )
    .unwrap();
    let sz_before = db.file().len();
    assert!(sz_before <= max_size);
    let err = db.update(|tx| {
        tx.bucket(b"data")
            .unwrap()
            .put(b"oversized", &vec![0u8; 400_000])?;
        Ok(())
    });
    assert!(matches!(err, Err(Error::MaxSizeReached)));
    assert!(db.file().len() <= max_size);
    fill_bucket(
        &db,
        b"data",
        1,
        |k| format!("small{k}").into_bytes(),
        |_| vec![0u8; 1],
    )
    .unwrap();
}

#[test]
fn test_db_huge_value() {
    let db = open_tmp();
    let size = 2 * 1024 * 1024;
    let data = vec![0xCDu8; size];
    db.update(|tx| {
        let b = tx.create_bucket_if_not_exists(b"data")?;
        b.put(b"key", &data)?;
        Ok(())
    })
    .unwrap();
    db.view(|tx| {
        let got = tx.bucket(b"data").unwrap().get(b"key").unwrap();
        assert_eq!(got.len(), size);
        Ok(())
    })
    .unwrap();
}

fn must_bucket_root(db: &Db, bucket: &[u8]) -> u64 {
    db.view(|tx| Ok(tx.bucket(bucket).unwrap().root())).unwrap()
}

fn leaf_pages_under_root(file: &[u8], root: u64, page_size: usize) -> Vec<u64> {
    let off = root as usize * page_size;
    let page = &file[off..off + page_size];
    let hdr = PageHeader::read(page);
    if hdr.is_branch() {
        (0..hdr.count as usize).map(|i| branch_at(page, i).0).collect()
    } else {
        vec![root]
    }
}

fn corrupt_leaf_key_order(file: &mut Vec<u8>, victim: u64, page_size: usize) {
    let off = victim as usize * page_size;
    let page = &mut file[off..off + page_size];
    let hdr = PageHeader::read(page);
    assert!(hdr.count > 1, "need multi-element leaf");
    let elem_off = PAGE_HEADER_SIZE + LEAF_PAGE_ELEMENT_SIZE;
    let pos = u32::from_le_bytes(page[elem_off + 4..elem_off + 8].try_into().unwrap()) as usize;
    let key_off = off + elem_off + pos;
    file[key_off] = 0;
}

#[test]
fn test_tx_check_with_nest_bucket() {
    let db = open_tmp();
    db.update(|tx| {
        let pb = tx.create_bucket(b"parentBucket")?;
        for i in 0..10 {
            pb.put(format!("{i:04}").as_bytes(), format!("value_{i:04}").as_bytes())?;
        }
        let cb = pb.create_bucket(b"nestedBucket")?;
        for i in 0..2000 {
            cb.put(format!("{i:04}").as_bytes(), format!("value_{i:04}").as_bytes())?;
        }
        Ok(())
    })
    .unwrap();
    let root = must_bucket_root(&db, b"parentBucket");
    db.view(|tx| {
        let errs = tx.check_with(CheckOptions { page_id: root });
        assert!(errs.is_empty(), "{errs:?}");
        Ok(())
    })
    .unwrap();
}

#[test]
fn test_tx_check_corrupt_page() {
    let db = open_tmp();
    fill_bucket(
        &db,
        b"data",
        100,
        |k| format!("{k:04}").into_bytes(),
        |_| vec![0u8; 100],
    )
    .unwrap();
    db.close().unwrap();

    let root = must_bucket_root(&reopen(&db, default_opts()), b"data");

    let mut file = db.file();
    let leaves = leaf_pages_under_root(&file, root, PAGE_SIZE);
    assert!(!leaves.is_empty());
    let victim = leaves[0];
    corrupt_leaf_key_order(&mut file, victim, PAGE_SIZE);

    let db = Db::open(file, default_opts()).unwrap();
    db.view(|tx| {
        let errs = tx.check_with(CheckOptions { page_id: victim });
        assert!(!errs.is_empty(), "expected corruption errors");
        for &pg in &leaves[1..] {
            let ok = tx.check_with(CheckOptions { page_id: pg });
            assert!(ok.is_empty(), "page {pg} should be valid: {ok:?}");
        }
        Ok(())
    })
    .unwrap();
}

#[test]
fn what_is_put_is_read_and_what_is_deleted_is_gone() {
    let db = open_tmp();
    db.update(|tx| {
        let b = tx.create_bucket(b"b")?;
        b.put(b"a", b"1")?;
        b.put(b"c", b"3")?;
        b.put(b"b", b"2")?;
        assert_eq!(b.get(b"b").as_deref(), Some(&b"2"[..]));
        assert_eq!(b.get(b"a").as_deref(), Some(&b"1"[..]));
        b.put(b"b", b"22")?;
        assert_eq!(b.get(b"b").as_deref(), Some(&b"22"[..]));
        b.delete(b"b")?;
        assert_eq!(b.get(b"b"), None);
        assert_eq!(b.get(b"c").as_deref(), Some(&b"3"[..]));
        assert!(tx.inner.borrow().has_value(b.id, b"a")?);
        assert!(!tx.inner.borrow().has_value(b.id, b"b")?);
        Ok(())
    })
    .unwrap();
    must_check(&db);
}

#[test]
fn nested_changes_are_committed_with_their_parents() {
    let db = open_tmp();
    db.update(|tx| {
        let b = tx.create_bucket(b"one")?.create_bucket(b"two")?.create_bucket(b"three")?;
        b.put(b"k", b"v")?;
        b.set_sequence(7)
    })
    .unwrap();
    db.update(|tx| {
        let two = tx.bucket(b"one").unwrap().bucket(b"two").unwrap();
        two.bucket(b"three").unwrap().put(b"k2", b"v2")?;
        two.put(b"beside", b"x")
    })
    .unwrap();
    let db = reopen(&db, default_opts());
    db.view(|tx| {
        let two = tx.bucket(b"one").unwrap().bucket(b"two").unwrap();
        let three = two.bucket(b"three").unwrap();
        assert_eq!(three.get(b"k").as_deref(), Some(&b"v"[..]));
        assert_eq!(three.get(b"k2").as_deref(), Some(&b"v2"[..]));
        assert_eq!(three.sequence(), 7);
        assert_eq!(two.get(b"beside").as_deref(), Some(&b"x"[..]));
        assert_eq!(two.get(b"three"), None);
        Ok(())
    })
    .unwrap();
    must_check(&db);
}

#[test]
fn torn_commit_leaves_the_state_before_it() {
    let db = open_tmp();
    fill_bucket(&db, b"b", 50, |i| format!("k{i:03}").into_bytes(), |_| b"old".to_vec()).unwrap();
    let old_meta = db.0.borrow().meta.txid;
    fill_bucket(&db, b"b", 50, |i| format!("k{i:03}").into_bytes(), |_| b"new".to_vec()).unwrap();
    let new_meta = db.0.borrow().meta.txid;
    assert_eq!(new_meta, old_meta + 1);
    let mut file = db.file();
    let again = Db::open(file.clone(), default_opts()).unwrap();
    again
        .view(|tx| {
            assert_eq!(tx.bucket(b"b").unwrap().get(b"k010").as_deref(), Some(&b"new"[..]));
            Ok(())
        })
        .unwrap();
    let at = (new_meta % 2) as usize * PAGE_SIZE + 40;
    file[at] ^= 0xff;
    let torn = Db::open(file, default_opts()).unwrap();
    assert_eq!(torn.0.borrow().meta.txid, old_meta);
    torn.view(|tx| {
        for i in 0..50 {
            let k = format!("k{i:03}");
            assert_eq!(tx.bucket(b"b").unwrap().get(k.as_bytes()).as_deref(), Some(&b"old"[..]));
        }
        Ok(())
    })
    .unwrap();
    must_check(&torn);
}

#[test]
fn readers_keep_what_they_saw() {
    let db = open_tmp();
    fill_bucket(&db, b"b", 10, |i| format!("k{i}").into_bytes(), |_| b"old".to_vec()).unwrap();
    let reader = db.begin(false).unwrap();
    for _ in 0..5 {
        fill_bucket(&db, b"b", 10, |i| format!("k{i}").into_bytes(), |_| b"new".to_vec()).unwrap();
    }
    let st = db.file();
    let seen = Pages { image: &st, page_size: PAGE_SIZE };
    let held = bbolt::compact::walk(&seen, &reader.inner.borrow().meta);
    assert_eq!(held.len(), 11);
    assert!(held.iter().skip(1).all(|s| s.value.as_deref() == Some(&b"old"[..])));
    reader.rollback().unwrap();
    must_check(&db);
}

#[test]
fn rollback_gives_all_pages_back() {
    let db = open_tmp();
    fill_bucket(&db, b"b", 200, |i| format!("k{i:03}").into_bytes(), |_| vec![1u8; 50]).unwrap();
    let before = db.0.borrow().fl.copy_all();
    let tx = db.begin(true).unwrap();
    tx.delete_bucket(b"b").unwrap();
    assert!(db.0.borrow().fl.copy_all().len() > before.len());
    tx.rollback().unwrap();
    drop(tx);
    assert_eq!(db.0.borrow().fl.copy_all(), before);
    db.view(|tx| {
        assert_eq!(tx.bucket(b"b").unwrap().get(b"k123"), Some(vec![1u8; 50]));
        Ok(())
    })
    .unwrap();
    must_check(&db);
}

#[test]
fn cursor_gives_keys_in_order_both_ways() {
    let db = open_tmp();
    fill_bucket(&db, b"b", 300, |i| format!("k{:03}", (i * 7) % 300).into_bytes(), |i| vec![i as u8; 40]).unwrap();
    db.view(|tx| {
        let mut c = tx.bucket(b"b").unwrap().cursor();
        let mut kv = c.first()?;
        for i in 0..300 {
            assert_eq!(kv.0, Some(format!("k{i:03}").into_bytes()));
            kv = c.next()?;
        }
        assert_eq!(kv.0, None);
        let mut kv = c.last()?;
        for i in (0..300).rev() {
            assert_eq!(kv.0, Some(format!("k{i:03}").into_bytes()));
            kv = c.prev()?;
        }
        assert_eq!(kv.0, None);
        Ok(())
    })
    .unwrap();
}

#[test]
fn cursor_views_keep_key_and_value() {
    let db = open_tmp();
    fill_bucket(&db, b"b", 300, |i| format!("k{i:03}").into_bytes(), |i| vec![i as u8; 40]).unwrap();
    db.view(|tx| {
        let b = tx.bucket(b"b").unwrap();
        let mut c = b.cursor();
        let inner = tx.inner.borrow();
        assert!(c.inner.first_view(&inner)?);
        assert_eq!(c.inner.bucket(), b.id);
        let mut n = 0;
        loop {
            assert_eq!(c.inner.key(), Some(format!("k{n:03}").as_bytes()));
            assert_eq!(c.inner.value(), Some(&vec![n as u8; 40][..]));
            n += 1;
            if !c.inner.next_view(&inner)? {
                break;
            }
        }
        assert_eq!(n, 300);
        assert_eq!(c.inner.key(), None);
        assert!(c.inner.seek_view(&inner, b"k1495")?);
        assert_eq!(c.inner.key(), Some(&b"k150"[..]));
        assert!(!c.inner.seek_view(&inner, b"z")?);
        Ok(())
    })
    .unwrap();
}

fn complaints(errs: Vec<Error>) -> Vec<String> {
    errs.iter().map(|e| e.message()).collect()
}

#[test]
fn check_says_what_is_wrong() {
    let db = open_tmp();
    fill_bucket(&db, b"b", 5, |i| format!("k{i}").into_bytes(), |_| vec![1u8; 2000]).unwrap();
    db.view(|tx| {
        let st = db.0.borrow();
        let inner = tx.inner.borrow();
        let whole = || Pages { image: &st.image, page_size: PAGE_SIZE };
        let all = st.fl.copy_all();
        let root = CheckOptions { page_id: 0 };
        assert!(check_tx(whole(), &inner.meta, &all, root).is_empty());
        let hwm = inner.meta.pgid;
        assert_eq!(
            complaints(check_tx(whole(), &inner.meta, &all, CheckOptions { page_id: 1 })),
            vec![format!("page ID (1) out of range [2, {hwm})")]
        );
        let free = all[0];
        let mut twice = all.clone();
        twice.push(free);
        assert_eq!(
            complaints(check_tx(whole(), &inner.meta, &twice, root)),
            vec![format!("page {free}: already freed")]
        );
        let fewer: Vec<Pgid> = all.iter().skip(1).copied().collect();
        assert_eq!(
            complaints(check_tx(whole(), &inner.meta, &fewer, root)),
            vec![format!("page {free}: unreachable unfreed")]
        );
        let used = inner.root(0);
        let mut more = all.clone();
        more.push(used);
        assert_eq!(
            complaints(check_tx(whole(), &inner.meta, &more, root)),
            vec![format!("page {used}: reachable freed")]
        );
        let short = Pages { image: &st.image[..2 * PAGE_SIZE], page_size: PAGE_SIZE };
        let errs = complaints(check_tx(short, &inner.meta, &all, root));
        assert_eq!(
            errs.last().unwrap().as_str(),
            format!("page {used} starts past mmap ({} bytes)", 2 * PAGE_SIZE)
        );
        Ok(())
    })
    .unwrap();
}

#[test]
fn bucket_statistics() {
    let db = open_tmp();
    db.update(|tx| tx.create_bucket(b"small")?.put(b"foo", b"bar")).unwrap();
    fill_bucket(&db, b"wide", 100, |k| format!("{k:04}").into_bytes(), |_| vec![0u8; 100]).unwrap();
    db.view(|tx| {
        let small = tx.bucket(b"small").unwrap();
        let s = bbolt::bucket_stats::bucket_stats(&tx.inner.borrow(), small.id);
        assert_eq!((s.key_n, s.depth, s.leaf_page_n, s.branch_page_n), (1, 1, 0, 0));
        assert_eq!((s.leaf_alloc, s.leaf_inuse), (0, 0));
        assert_eq!((s.bucket_n, s.inline_bucket_n, s.inline_bucket_inuse), (1, 1, 38));
        let wide = tx.bucket(b"wide").unwrap();
        let s = bbolt::bucket_stats::bucket_stats(&tx.inner.borrow(), wide.id);
        assert_eq!((s.key_n, s.depth, s.branch_page_n), (100, 2, 1));
        assert!(s.leaf_page_n >= 3);
        assert_eq!(s.leaf_inuse, 16 * s.leaf_page_n + 100 * (16 + 4 + 100));
        assert_eq!(s.leaf_alloc, PAGE_SIZE * s.leaf_page_n);
        assert_eq!(s.branch_inuse, 16 + s.leaf_page_n * (16 + 4));
        assert_eq!(s.branch_alloc, PAGE_SIZE);
        assert_eq!((s.bucket_n, s.inline_bucket_n), (1, 0));
        Ok(())
    })
    .unwrap();
}

#[test]
fn new_database_passes_the_check() {
    must_check(&open_tmp());
}

#[test]
fn freelist_is_found_again_where_none_is_stored() {
    let options = || Options { no_freelist_sync: true, ..default_opts() };
    let db = open_with(options());
    fill_bucket(&db, b"b", 300, |i| format!("k{i:03}").into_bytes(), |_| vec![1u8; 60]).unwrap();
    fill_bucket(&db, b"b", 300, |i| format!("k{i:03}").into_bytes(), |_| vec![2u8; 60]).unwrap();
    db.update(|tx| tx.delete_bucket(b"b")).unwrap();
    assert!(!db.0.borrow().meta.is_freelist_persisted());
    let listed = db.0.borrow().fl.copy_all();
    let db = reopen(&db, options());
    let mut found = db.0.borrow().fl.copy_all();
    found.sort();
    assert_eq!(found, listed);
    assert!(!found.is_empty());
    must_check(&db);
}

fn copy_into(dst: &Db, src: &Db, tx_max_size: i64) -> Result<usize> {
    let file = src.file();
    let meta = src.0.borrow().meta.clone();
    let steps = bbolt::compact::walk(&Pages { image: &file, page_size: PAGE_SIZE }, &meta);
    let ends = cut(&steps, tx_max_size);
    let mut from = 0;
    for to in &ends {
        let tx = dst.begin(true)?;
        copy_steps(&mut tx.inner.borrow_mut(), &steps, from, *to)?;
        tx.commit()?;
        from = *to;
    }
    Ok(ends.len())
}

fn listing(db: &Db) -> Vec<(Vec<Vec<u8>>, Vec<u8>, Option<Vec<u8>>, u64)> {
    let file = db.file();
    let meta = db.0.borrow().meta.clone();
    bbolt::compact::walk(&Pages { image: &file, page_size: PAGE_SIZE }, &meta)
        .into_iter()
        .map(|s| (s.path, s.key, s.value, s.sequence))
        .collect()
}

#[test]
fn copy_holds_what_was_copied() {
    let src = open_tmp();
    fill_bucket(&src, b"wide", 400, |i| format!("k{i:04}").into_bytes(), |i| vec![i as u8; 90]).unwrap();
    src.update(|tx| {
        tx.bucket(b"wide").unwrap().set_sequence(11)?;
        let a = tx.create_bucket(b"a")?;
        a.set_sequence(3)?;
        let b = a.create_bucket(b"b")?;
        b.put(b"x", b"1")?;
        b.create_bucket(b"empty")?;
        a.put(b"z", b"2")
    })
    .unwrap();
    fill_bucket(&src, b"wide", 300, |i| format!("k{i:04}").into_bytes(), |_| b"s".to_vec()).unwrap();
    let want = listing(&src);
    assert_eq!(want.len(), 400 + 1 + 5);
    assert_eq!(want[0], (Vec::new(), b"a".to_vec(), None, 3));
    assert_eq!(want[1], (vec![b"a".to_vec()], b"b".to_vec(), None, 0));
    for limit in [0i64, 1000] {
        let dst = open_tmp();
        let commits = copy_into(&dst, &src, limit).unwrap();
        assert_eq!(commits > 1, limit != 0);
        assert_eq!(listing(&dst), want);
        must_check(&dst);
    }
}

#[test]
fn copy_stops_where_a_step_cannot_be_carried_out() {
    let dst = open_tmp();
    let step = |path: Vec<Vec<u8>>, key: &[u8], value: Option<&[u8]>| bbolt::compact::Step {
        path,
        key: key.to_vec(),
        value: value.map(|v| v.to_vec()),
        sequence: 0,
    };
    let tx = dst.begin(true).unwrap();
    let mut inner = tx.inner.borrow_mut();
    let mut copy = |s: bbolt::compact::Step| bbolt::compact::copy_step(&mut inner, &s);
    assert!(matches!(copy(step(vec![b"b".to_vec()], b"k", Some(b"v"))), Err(Error::BucketNotFound)));
    assert!(matches!(copy(step(Vec::new(), b"k", Some(b"v"))), Err(Error::BucketNotFound)));
    assert!(matches!(copy(step(Vec::new(), b"", None)), Err(Error::BucketNameRequired)));
    copy(step(Vec::new(), b"b", None)).unwrap();
    assert!(matches!(copy(step(Vec::new(), b"b", None)), Err(Error::BucketExists)));
    copy(step(vec![b"b".to_vec()], b"k", Some(b"v"))).unwrap();
    assert!(matches!(copy(step(vec![b"b".to_vec()], b"k", None)), Err(Error::IncompatibleValue)));
    assert!(matches!(copy(step(vec![b"b".to_vec()], b"", Some(b"v"))), Err(Error::KeyRequired)));
    drop(inner);
    tx.commit().unwrap();
    assert_eq!(listing(&dst).len(), 2);
}

#[test]
fn keys_are_visited_in_order_until_a_call_fails() {
    let db = open_tmp();
    fill_bucket(&db, b"b", 200, |i| format!("k{:03}", 199 - i).into_bytes(), |_| vec![0u8; 64]).unwrap();
    db.update(|tx| {
        tx.bucket(b"b").unwrap().create_bucket(b"k0505")?;
        tx.bucket(b"b").unwrap().create_bucket(b"z")?;
        Ok(())
    })
    .unwrap();
    db.view(|tx| {
        let b = tx.bucket(b"b").unwrap();
        let mut seen: Vec<Vec<u8>> = Vec::new();
        b.for_each(|k, v| {
            assert_eq!(v.is_none(), k == b"k0505" || k == b"z");
            seen.push(k.to_vec());
            Ok(())
        })?;
        assert_eq!(seen.len(), 202);
        assert!(seen.windows(2).all(|w| w[0] < w[1]));
        let mut names: Vec<Vec<u8>> = Vec::new();
        b.for_each_bucket(|k| {
            names.push(k.to_vec());
            Ok(())
        })?;
        assert_eq!(names, vec![b"k0505".to_vec(), b"z".to_vec()]);
        let mut n = 0;
        let r = b.for_each(|_, _| {
            n += 1;
            if n == 7 { Err(Error::Invalid) } else { Ok(()) }
        });
        assert!(matches!(r, Err(Error::Invalid)));
        assert_eq!(n, 7);
        let r = b.for_each_bucket(|_| Err(Error::Timeout));
        assert!(matches!(r, Err(Error::Timeout)));
        Ok(())
    })
    .unwrap();
    let tx = db.begin(false).unwrap();
    let b = tx.bucket(b"b").unwrap();
    tx.rollback().unwrap();
    assert!(matches!(b.for_each(|_, _| Ok(())), Err(Error::TxClosed)));
    assert!(matches!(b.for_each_bucket(|_| Ok(())), Err(Error::TxClosed)));
}

#[test]
fn test_bucket_inspect() {
    let db = open_tmp();
    db.update(|tx| {
        let b1 = tx.create_bucket(b"b1")?;
        for i in 0..3 {
            b1.put(format!("{i:02}").as_bytes(), format!("{i:02}").as_bytes())?;
        }
        let b1_1 = b1.create_bucket(b"b1_1")?;
        for i in 0..6 {
            b1_1.put(format!("{i:02}").as_bytes(), b"x")?;
        }
        Ok(())
    })
    .unwrap();
    db.view(|tx| {
        let tree = tx.inspect();
        assert_eq!(tree.name, "root");
        assert!(!tree.children.is_empty());
        let b1 = tree.children.iter().find(|c| c.name == "b1").unwrap();
        assert_eq!(b1.key_n, 3);
        assert!(!b1.children.is_empty());
        Ok(())
    })
    .unwrap();
}

#[test]
fn inspect_shows_changes_and_names_that_are_no_text() {
    let db = open_tmp();
    db.update(|tx| {
        let a = tx.create_bucket(b"a")?;
        a.create_bucket(b"\xffx")?.put(b"k", b"v")?;
        a.create_bucket("\u{e9}".as_bytes())?;
        Ok(())
    })
    .unwrap();
    db.update(|tx| {
        let a = tx.bucket(b"a").unwrap();
        a.put(b"one", b"1")?;
        a.bucket(b"\xffx").unwrap().delete(b"k")?;
        let tree = tx.inspect();
        assert_eq!((tree.name.as_str(), tree.key_n, tree.children.len()), ("root", 0, 1));
        let a = &tree.children[0];
        assert_eq!((a.name.as_str(), a.key_n), ("a", 1));
        let names: Vec<(&str, usize)> = a.children.iter().map(|c| (c.name.as_str(), c.key_n)).collect();
        assert_eq!(names, vec![("\u{e9}", 0), ("\u{fffd}x", 0)]);
        Ok(())
    })
    .unwrap();
    must_check(&db);
}

#[test]
fn test_db_consistency() {
    let db = open_tmp();
    db.update(|tx| {
        tx.create_bucket(b"widgets")?;
        Ok(())
    })
    .unwrap();
    for _ in 0..10 {
        db.update(|tx| {
            tx.bucket(b"widgets").unwrap().put(b"foo", b"bar")?;
            Ok(())
        })
        .unwrap();
    }
    db.update(|tx| {
        assert_eq!(tx.page_info(0).unwrap().page_type, "meta");
        assert_eq!(tx.page_info(1).unwrap().page_type, "meta");
        assert!(tx.page_info(6).is_err());
        Ok(())
    })
    .unwrap();
    must_check(&db);
}

#[test]
fn page_listing_says_what_is_on_each_page() {
    let db = open_tmp();
    fill_bucket(&db, b"b", 10, |i| format!("k{i}").into_bytes(), |_| vec![1u8; 3000]).unwrap();
    db.view(|tx| {
        let mut types: Vec<String> = Vec::new();
        for id in 0..tx.high_water_mark() {
            let info = tx.page_info(id)?;
            assert_eq!(info.id, id);
            types.push(info.page_type);
        }
        assert_eq!(types[0], "meta");
        assert_eq!(types.iter().filter(|t| t.as_str() == "freelist").count(), 1);
        let free = db.0.borrow().fl.copy_all();
        for id in &free {
            assert_eq!(types[*id as usize], "free");
        }
        assert!(!free.is_empty());
        assert_eq!(types[tx.bucket(b"b").unwrap().root() as usize], "branch");
        Ok(())
    })
    .unwrap();
    let tx = db.begin(false).unwrap();
    tx.rollback().unwrap();
    assert!(matches!(tx.page_info(0), Err(Error::TxClosed)));
}

#[test]
fn test_tx_copy_file() {
    let db = open_tmp();
    db.update(|tx| {
        let b = tx.create_bucket(b"widgets")?;
        b.put(b"foo", b"bar")?;
        b.put(b"baz", b"bat")?;
        Ok(())
    })
    .unwrap();
    let copy = db.view(|tx| Ok(tx.copy_file())).unwrap();
    let db2 = Db::open(copy, Options::default()).unwrap();
    db2.view(|tx| {
        let b = tx.bucket(b"widgets").unwrap();
        assert_eq!(b.get(b"foo").as_deref(), Some(&b"bar"[..]));
        assert_eq!(b.get(b"baz").as_deref(), Some(&b"bat"[..]));
        Ok(())
    })
    .unwrap();
}

#[test]
fn test_db_write_to_and_overwrite() {
    let db = open_tmp();
    db.update(|tx| {
        let b = tx.create_bucket(b"data")?;
        for k in 0..10 {
            b.put(format!("key_{k}").as_bytes(), format!("value_{k}").as_bytes())?;
        }
        Ok(())
    })
    .unwrap();
    let mut expected = std::collections::HashMap::new();
    db.view(|tx| {
        let b = tx.bucket(b"data").unwrap();
        b.for_each(|k, v| {
            expected.insert(k.to_vec(), v.unwrap().to_vec());
            Ok(())
        })?;
        Ok(())
    })
    .unwrap();

    let rtx = db.begin(false).unwrap();
    let backup = rtx.copy_file();
    rtx.rollback().unwrap();

    let snap = Db::open(backup, Options { page_size: PAGE_SIZE, read_only: true, ..Options::default() }).unwrap();
    snap.view(|tx| {
        let b = tx.bucket(b"data").unwrap();
        b.for_each(|k, v| {
            assert_eq!(expected.get(k), Some(&v.unwrap().to_vec()));
            Ok(())
        })?;
        assert!(tx.check().is_empty());
        Ok(())
    })
    .unwrap();
}

#[test]
fn copy_of_pages_is_of_the_moment_it_was_begun() {
    let db = open_tmp();
    fill_bucket(&db, b"b", 200, |i| format!("k{i:03}").into_bytes(), |_| vec![1u8; 60]).unwrap();
    let rtx = db.begin(false).unwrap();
    fill_bucket(&db, b"b", 200, |i| format!("k{i:03}").into_bytes(), |_| vec![2u8; 60]).unwrap();
    let copy = rtx.copy_file();
    assert_eq!(copy.len() as u64, rtx.inner.borrow().size());
    let meta = pick_meta(&copy).unwrap();
    assert_eq!(meta.txid, rtx.inner.borrow().meta.txid);
    rtx.rollback().unwrap();
    let snap = Db::open(copy, default_opts()).unwrap();
    snap.view(|tx| {
        assert_eq!(tx.bucket(b"b").unwrap().get(b"k100"), Some(vec![1u8; 60]));
        Ok(())
    })
    .unwrap();
    must_check(&snap);
    let first = init_file(PAGE_SIZE);
    let mut torn = first.clone();
    torn[PAGE_SIZE + 20] ^= 0xff;
    let old = Db::open(torn, default_opts()).unwrap();
    let copy = old.view(|tx| Ok(tx.copy_file())).unwrap();
    assert_eq!(pick_meta(&copy).unwrap().txid, 0);
}

#[test]
fn test_open_with_pre_load_freelist() {
    let db = open_with(Options { page_size: 4096, ..Options::default() });
    db.update(|tx| {
        let b = tx.create_bucket(b"b")?;
        b.put(b"k", b"v")?;
        Ok(())
    })
    .unwrap();
    db.close().unwrap();

    let db = reopen(
        &db,
        Options { page_size: 4096, read_only: true, pre_load_freelist: false, ..Options::default() },
    );
    db.view(|tx| {
        assert_eq!(tx.bucket(b"b").unwrap().get(b"k").as_deref(), Some(&b"v"[..]));
        Ok(())
    })
    .unwrap();
    assert_eq!(db.stats().free_page_n, 0);
    db.close().unwrap();

    let db = reopen(
        &db,
        Options { page_size: 4096, read_only: true, pre_load_freelist: true, ..Options::default() },
    );
    let st = db.stats();
    assert_eq!(st.free_page_n, 2);
    db.close().unwrap();
}

/// Puts `n` keys of 8 bytes with values of 100 bytes into a new bucket.
fn fill_to(db: &Db, n: usize, split_at: usize) {
    db.update(|tx| {
        let b = tx.create_bucket(b"data")?;
        b.set_fill(split_at, split_at / 2);
        for i in 0..n {
            b.put(format!("{i:08}").as_bytes(), &[7u8; 100])?;
        }
        Ok(())
    })
    .unwrap();
}

fn leaf_pages(db: &Db) -> (usize, usize) {
    let mut pages = (0, 0);
    db.view(|tx| {
        assert!(tx.check().is_empty());
        let stats = tx.bucket(b"data").unwrap().stats();
        pages = (stats.leaf_page_n, stats.branch_page_n);
        Ok(())
    })
    .unwrap();
    pages
}

#[test]
fn fill_decides_how_pages_are_split() {
    for (split_at, leaves) in [(4096, 7), (2048, 12), (409, 57)] {
        let db = open_tmp();
        fill_to(&db, 200, split_at);
        assert_eq!(leaf_pages(&db), (leaves, 1), "{split_at}");
    }
}

#[test]
fn small_nodes_are_joined() {
    for (merge_at, leaves) in [(100, 3), (2048, 2)] {
        let db = open_tmp();
        fill_to(&db, 96, 4096);
        assert_eq!(leaf_pages(&db), (3, 1));
        db.update(|tx| {
            let b = tx.bucket(b"data").unwrap();
            b.set_fill(4096, merge_at);
            for i in (0..30).chain(40..50) {
                b.delete(format!("{i:08}").as_bytes())?;
            }
            Ok(())
        })
        .unwrap();
        assert_eq!(leaf_pages(&db), (leaves, 1), "{merge_at}");
    }
}

#[test]
fn empty_nodes_are_dropped() {
    let db = open_tmp();
    fill_to(&db, 64, 4096);
    assert_eq!(leaf_pages(&db), (2, 1));
    db.update(|tx| {
        let b = tx.bucket(b"data").unwrap();
        for i in 0..40 {
            b.delete(format!("{i:08}").as_bytes())?;
        }
        Ok(())
    })
    .unwrap();
    assert_eq!(leaf_pages(&db), (1, 0));
}

#[test]
fn nothing_deleted_nothing_joined() {
    let db = open_tmp();
    fill_to(&db, 96, 4096);
    db.update(|tx| {
        let b = tx.bucket(b"data").unwrap();
        b.set_fill(4096, 4096);
        b.put(b"00000000", &[8u8; 100])
    })
    .unwrap();
    assert_eq!(leaf_pages(&db), (3, 1));
}

#[test]
fn buckets_up_to_a_quarter_page_are_inline() {
    for (len, inline) in [(991, 1), (992, 0)] {
        let db = open_tmp();
        db.update(|tx| {
            let b = tx.create_bucket(b"outer")?.create_bucket(b"inner")?;
            b.put(b"k", &vec![1u8; len])
        })
        .unwrap();
        db.view(|tx| {
            let outer = tx.bucket(b"outer").unwrap();
            assert_eq!(outer.stats().inline_bucket_n, inline, "{len}");
            assert_eq!(outer.bucket(b"inner").unwrap().root() == 0, inline == 1);
            Ok(())
        })
        .unwrap();
    }
}

#[test]
fn large_pages_are_taken() {
    for page_size in [1024 * 1024, 16 * 1024 * 1024] {
        let db = open_with(Options { page_size, ..Options::default() });
        db.update(|tx| tx.create_bucket(b"b")?.put(b"k", &vec![3u8; 5000])).unwrap();
        let db = reopen(&db, Options { page_size: 0, ..Options::default() });
        db.view(|tx| {
            assert_eq!(tx.bucket(b"b").unwrap().get(b"k"), Some(vec![3u8; 5000]));
            assert!(tx.check().is_empty());
            Ok(())
        })
        .unwrap();
    }
}

#[test]
fn failed_commit_keeps_what_was_allocated() {
    let db = open_tmp();
    let tx = db.begin(true).unwrap();
    let before = tx.high_water_mark();
    let b = tx.create_bucket(b"b").unwrap();
    for i in 0..100 {
        b.put(format!("{i:08}").as_bytes(), &[7u8; 100]).unwrap();
    }
    {
        let mut guard = db.0.borrow_mut();
        let st: &mut Store = &mut guard;
        let max_size = (before as usize + 3) * PAGE_SIZE;
        let r = tx.inner.borrow_mut().commit(&mut st.fl, max_size, false);
        assert!(matches!(r, Err(Error::MaxSizeReached)));
    }
    assert_eq!(tx.high_water_mark(), before + 2);
    tx.rollback().unwrap();
    db.update(|tx| tx.create_bucket(b"b").map(|_| ())).unwrap();
}

#[test]
fn pages_in_a_circle_are_noticed() {
    let mut image = init_file(4096);
    let meta = pick_meta(&image).unwrap();
    assert!(can_check(&Pages { image: &image, page_size: 4096 }, &meta, 0, 1));
    assert!(!can_check(&Pages { image: &image, page_size: 4096 }, &meta, 0, 0));
    let at = 3 * 4096;
    image[at + 8..at + 12].copy_from_slice(&[1, 0, 1, 0]);
    image[at + 16..at + 20].copy_from_slice(&[16, 0, 0, 0]);
    image[at + 24] = 3;
    assert!(!can_check(&Pages { image: &image, page_size: 4096 }, &meta, 0, 100));
    image[at + 24] = 200;
    assert!(can_check(&Pages { image: &image, page_size: 4096 }, &meta, 0, 100));
    image[at + 17] = 16;
    assert!(!can_check(&Pages { image: &image, page_size: 4096 }, &meta, 0, 100));
}

#[test]
fn damaged_freelists_are_noticed() {
    let mut image = init_file(4096);
    let meta = pick_meta(&image).unwrap();
    assert!(can_load(&Pages { image: &image, page_size: 4096 }, &meta));
    let at = 2 * 4096;
    image[at + 10] = 2;
    image[at + 16] = 5;
    assert!(!can_load(&Pages { image: &image, page_size: 4096 }, &meta));
    image[at + 24] = 5;
    assert!(!can_load(&Pages { image: &image, page_size: 4096 }, &meta));
    image[at + 24] = 6;
    assert!(can_load(&Pages { image: &image, page_size: 4096 }, &meta));
    image[at + 11] = 16;
    assert!(!can_load(&Pages { image: &image, page_size: 4096 }, &meta));
}

#[test]
fn the_file_stays_within_its_limit() {
    let attempt = |max_size: usize| {
        let db = open_tmp();
        let tx = db.begin(true).unwrap();
        let before = tx.high_water_mark();
        let b = tx.create_bucket(b"b").unwrap();
        for i in 0..100 {
            b.put(format!("{i:08}").as_bytes(), &[7u8; 100]).unwrap();
        }
        let r = {
            let mut guard = db.0.borrow_mut();
            tx.inner.borrow_mut().commit(&mut guard.fl, max_size, false)
        };
        (before, tx.high_water_mark(), r)
    };
    let (before, last, r) = attempt(0);
    assert_eq!(r.unwrap().meta.pgid, last);
    assert!(last > before + 3);
    for limit in before..last + 3 {
        let max_size = limit as usize * PAGE_SIZE;
        let (_, end, r) = attempt(max_size);
        match r {
            Ok(plan) => {
                assert!(limit > last);
                assert_eq!(plan.meta.pgid, last);
                assert!((plan.meta.pgid as usize + 1) * PAGE_SIZE <= max_size);
            },
            Err(e) => {
                assert!(matches!(e, Error::MaxSizeReached));
                assert!(limit <= last);
                assert!((end as usize + 1) * PAGE_SIZE <= max_size || end == before);
            },
        }
    }
}

#[test]
fn a_small_change_fits_in_a_full_file() {
    let max_size = 512 * 1024;
    let db = open_with(Options { page_size: PAGE_SIZE, max_size, ..Options::default() });
    fill_bucket(&db, b"data", 50, |k| format!("{k:04}").into_bytes(), |_| vec![0u8; 1000]).unwrap();
    let before = db.view(|tx| Ok(tx.high_water_mark())).unwrap();
    fill_bucket(&db, b"data", 1, |k| format!("small{k}").into_bytes(), |_| vec![0u8; 1]).unwrap();
    let after = db.view(|tx| Ok(tx.high_water_mark())).unwrap();
    assert!(after <= before + 4);
}

#[test]
fn a_transaction_begins_with_nothing_counted() {
    let db = open_tmp();
    db.update(|tx| tx.create_bucket(b"b").map(|_| ())).unwrap();
    let tx = db.begin(true).unwrap();
    let inner = tx.inner.borrow();
    assert_eq!(inner.stats.get_page_count(), 0);
    assert_eq!(inner.stats.get_write(), 0);
    assert_eq!(inner.buckets.len(), 1);
    assert_eq!(inner.buckets[0].header.root, db.0.borrow().meta.root.root);
    assert_eq!(inner.buckets[0].header.sequence, db.0.borrow().meta.root.sequence);
    assert_eq!((inner.buckets[0].split_at, inner.buckets[0].merge_at), (2048, 1024));
    assert!(inner.is_sized());
}

#[test]
fn a_bucket_in_an_inline_bucket_ends_its_page() {
    let db = open_tmp();
    db.update(|tx| {
        let b = tx.create_bucket(b"b")?;
        b.put(b"k1", b"v1")?;
        b.put(b"k2", b"v2")
    })
    .unwrap();
    db.update(|tx| {
        let b = tx.bucket(b"b").unwrap();
        assert!(tx.inner.borrow().buckets[b.id].inline_page.is_some());
        let mut c = b.cursor();
        c.first()?;
        c.next()?;
        b.create_bucket(b"nested")?;
        assert!(tx.inner.borrow().buckets[b.id].inline_page.is_none());
        match (c.next(), c.prev()) {
            (Err(Error::Corrupt(x)), Err(Error::Corrupt(y))) => {
                assert_eq!(x, "inline missing");
                assert_eq!(y, "inline missing");
            },
            other => panic!("{other:?}"),
        }
        assert_eq!(c.first()?.0.as_deref(), Some(&b"k1"[..]));
        Ok(())
    })
    .unwrap();
}

#[test]
fn a_cursor_keeps_its_key_when_it_cannot_go_on() {
    let db = open_tmp();
    db.update(|tx| {
        let b = tx.create_bucket(b"b")?;
        b.put(b"k1", b"v1")?;
        b.put(b"k2", b"v2")
    })
    .unwrap();
    let tx = db.begin(false).unwrap();
    let mut c = tx.bucket(b"b").unwrap().cursor();
    assert!(c.inner.first_view(&tx.inner.borrow()).unwrap());
    tx.rollback().unwrap();
    assert!(matches!(c.inner.next_view(&tx.inner.borrow()), Err(Error::TxClosed)));
    assert_eq!(c.inner.key(), Some(&b"k1"[..]));
    assert_eq!(c.inner.value(), Some(&b"v1"[..]));
}

#[test]
fn meta_pages_end_with_zeros() {
    let db = open_tmp();
    let tx = db.begin(true).unwrap();
    tx.create_bucket(b"b").unwrap();
    {
        let mut guard = db.0.borrow_mut();
        let st: &mut Store = &mut guard;
        let plan = tx.inner.borrow_mut().commit(&mut st.fl, 0, false).unwrap();
        assert_eq!(plan.meta_page.len(), PAGE_SIZE);
        assert!(plan.meta_page[80..].iter().all(|b| *b == 0));
        assert!(plan.meta_page[..80].iter().any(|b| *b != 0));
    }
    let db = open_tmp();
    db.update(|tx| tx.create_bucket(b"b").map(|_| ())).unwrap();
    let copy = db.view(|tx| Ok(tx.copy_file())).unwrap();
    assert!(copy[80..PAGE_SIZE].iter().all(|b| *b == 0));
    assert!(copy[PAGE_SIZE + 80..2 * PAGE_SIZE].iter().all(|b| *b == 0));
}

fn bare_step(path: &[&[u8]], key: &[u8], value: Option<&[u8]>) -> Step {
    Step {
        path: path.iter().map(|name| name.to_vec()).collect(),
        key: key.to_vec(),
        value: value.map(|v| v.to_vec()),
        sequence: 0,
    }
}

#[test]
fn copies_are_cut_where_they_grow_too_large() {
    let steps = vec![
        bare_step(&[], b"b", None),
        bare_step(&[b"b"], b"k1", Some(b"0123")),
        bare_step(&[b"b"], b"k2", Some(b"0123")),
        bare_step(&[b"b"], b"k3", Some(b"0123456789")),
        bare_step(&[b"b"], b"k4", None),
    ];
    assert_eq!(cut(&steps, 0), vec![5]);
    assert_eq!(cut(&steps, 13), vec![3, 4, 5]);
    assert_eq!(cut(&steps, 7), vec![2, 3, 4, 5]);
    assert_eq!(cut(&steps, -1), vec![0, 1, 2, 3, 4, 5]);
    assert_eq!(cut(&Vec::new(), 5), vec![0]);
    assert_eq!(weigh(13, 13, &steps[3]), (true, 12));
    assert_eq!(weigh(13, 1, &steps[3]), (false, 13));

    let db = open_tmp();
    let tx = db.begin(true).unwrap();
    let mut inner = tx.inner.borrow_mut();
    copy_steps(&mut inner, &steps, 0, 2).unwrap();
    let b = inner.bucket_by_name(0, b"b").unwrap().unwrap();
    assert_eq!((inner.buckets[b].split_at, inner.buckets[b].merge_at), (4096, 2048));
    assert_eq!((inner.buckets[0].split_at, inner.buckets[0].merge_at), (2048, 1024));
    assert_eq!(inner.get(b, b"k1").unwrap(), Some(b"0123".to_vec()));
    assert_eq!(inner.get(b, b"k2").unwrap(), None);
    copy_steps(&mut inner, &steps, 2, 5).unwrap();
    assert_eq!(inner.get(b, b"k3").unwrap(), Some(b"0123456789".to_vec()));
    assert!(matches!(copy_steps(&mut inner, &steps, 3, 5), Err(Error::BucketExists)));
    assert!(matches!(copy_steps(&mut inner, &steps, 0, 1), Err(Error::BucketExists)));
    copy_steps(&mut inner, &steps, 5, 5).unwrap();
}

#[test]
fn large_pages_can_have_too_many_keys() {
    let db = open_with(Options { page_size: 2 * 1024 * 1024, ..Options::default() });
    let tx = db.begin(true).unwrap();
    let b = tx.create_bucket(b"b").unwrap();
    for i in 0..0xFFFEu32 {
        b.put(&i.to_be_bytes(), b"").unwrap();
    }
    assert!(tx.inner.borrow().is_sized());
    b.put(&0xFFFEu32.to_be_bytes(), b"").unwrap();
    assert!(!tx.inner.borrow().is_sized());
}

#[test]
fn readers_stay_listed_where_the_list_was_not_loaded() {
    for (loaded, left) in [(true, true), (false, false)] {
        let db = open_tmp();
        db.update(|tx| tx.create_bucket(b"b").map(|_| ())).unwrap();
        let reader = db.begin(false).unwrap();
        db.update(|tx| tx.bucket(b"b").unwrap().put(b"k", b"v")).unwrap();
        let held = db.0.borrow().fl.pending_count();
        assert!(held > 0);
        {
            let mut guard = db.0.borrow_mut();
            let st: &mut Store = &mut guard;
            reader.inner.borrow_mut().close_internal(&mut st.fl, &mut st.stats, loaded, false);
            st.fl.release_pending_pages();
            assert_eq!(st.fl.pending_count() == 0, left);
        }
    }
}

#[test]
fn an_update_is_seen_in_whole_or_not_at_all() {
    let db = open_tmp();
    db.update(|tx| tx.create_bucket(b"b")?.put(b"k", b"1")).unwrap();
    let seen = |db: &Db| db.view(|tx| Ok(tx.bucket(b"b").unwrap().get(b"k"))).unwrap();
    let failed = db.update(|tx| {
        tx.bucket(b"b").unwrap().put(b"k", b"2")?;
        assert!(matches!(tx.commit(), Err(Error::ManagedTx)));
        assert!(matches!(tx.rollback(), Err(Error::ManagedTx)));
        tx.bucket(b"b").unwrap().put(b"k", b"3")?;
        Err::<(), Error>(Error::BucketNotFound)
    });
    assert!(matches!(failed, Err(Error::BucketNotFound)));
    assert_eq!(seen(&db), Some(b"1".to_vec()));
    assert_eq!(db.update(|tx| tx.bucket(b"b").unwrap().put(b"k", b"4").map(|_| 7)).unwrap(), 7);
    assert_eq!(seen(&db), Some(b"4".to_vec()));
}

#[test]
fn free_pages_are_used_before_the_file_grows() {
    let db = open_tmp();
    fill_bucket(&db, b"b", 100, |i| format!("{i:04}").into_bytes(), |_| vec![0u8; 500]).unwrap();
    db.update(|tx| tx.delete_bucket(b"b")).unwrap();
    db.update(|_| Ok(())).unwrap();
    let before = db.view(|tx| Ok(tx.high_water_mark())).unwrap();
    for _ in 0..5 {
        fill_bucket(&db, b"b", 20, |i| format!("{i:04}").into_bytes(), |_| vec![1u8; 500]).unwrap();
    }
    assert_eq!(db.view(|tx| Ok(tx.high_water_mark())).unwrap(), before);
    must_check(&db);
}
