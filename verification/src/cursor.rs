//! Cursors: going through the keys of a bucket in order.
use vstd::prelude::*;
use vstd::slice::slice_to_vec;
use crate::bucket::{unsplit, BucketId};
use crate::error::{Error, Result};
use crate::inode::{decode, elem_ok, leaf_at, views, Inode, InodeV};
use crate::leaves::{flat, lemma_flat, lemma_flat_split, lemma_routed, lemma_routed_alike, lemma_routed_same, lists, routed, seek_path};
use crate::page::{BUCKET_LEAF_FLAG, PageHeader, Pgid};
use crate::path::{descend, find_leaf, full, leaf_node, lemma_disk_leaf, lemma_full, lemma_leaf_node, lemma_mem_len, lemma_ordinal, lemma_path_alike, lemma_path_same, mem_flags, on_path, ordinal, step, ElemRef};
use crate::search::page_place;
use crate::tree::{alike, in_order, is_bucket, lemma_alike_uses, pos, Key, Tree};
use crate::tx::{opt_view, TxInner};

verus! {

/// A key, its value unless it has a nested bucket, and the flags of the element.
pub type Kv = (Option<Vec<u8>>, Option<Vec<u8>>, u32);

/// What a [`Kv`] holds.
pub open spec fn kv_view(kv: Kv) -> (Option<Seq<u8>>, Option<Seq<u8>>, u32) {
    (opt_view(kv.0), opt_view(kv.1), kv.2)
}

/// What a cursor shows of the element at `i`, if there is one.
pub open spec fn shown(items: Seq<InodeV>, i: int) -> (Option<Seq<u8>>, Option<Seq<u8>>, u32) {
    if 0 <= i < items.len() {
        (
            Some(items[i].key),
            if is_bucket(items[i]) {
                None
            } else {
                Some(items[i].value)
            },
            items[i].flags,
        )
    } else {
        nothing()
    }
}

/// What a cursor shows where there is nothing.
pub open spec fn nothing() -> (Option<Seq<u8>>, Option<Seq<u8>>, u32) {
    (None, None, 0u32)
}

/// Where a cursor is: a leaf, an element of it, and whether the leaf is looked at in memory.
pub struct Spot {
    pub leaf: int,
    pub index: int,
    pub mem: bool,
}

/// The first leaf from `from` on that holds anything.
pub open spec fn first_full(l: Seq<Seq<InodeV>>, from: int) -> int
    decreases l.len() - from,
{
    if from >= l.len() {
        l.len() as int
    } else if l[from].len() > 0 {
        from
    } else {
        first_full(l, from + 1)
    }
}

/// The last leaf before `to` that holds anything, or -1.
pub open spec fn last_full(l: Seq<Seq<InodeV>>, to: int) -> int
    decreases to,
{
    if to <= 0 {
        -1
    } else if l[to - 1].len() > 0 {
        to - 1
    } else {
        last_full(l, to - 1)
    }
}

/// What `first_full` says.
pub proof fn lemma_first_full(l: Seq<Seq<InodeV>>, from: int)
    requires
        0 <= from <= l.len(),
    ensures
        from <= first_full(l, from) <= l.len(),
        forall|j: int| from <= j < first_full(l, from) ==> (#[trigger] l[j]).len() == 0,
        first_full(l, from) < l.len() ==> l[first_full(l, from)].len() > 0,
        flat(l.take(first_full(l, from))) == flat(l.take(from)),
        first_full(l, from) == l.len() ==> flat(l) == flat(l.take(from)),
    decreases l.len() - from,
{
    if from < l.len() {
        if l[from].len() == 0 {
            lemma_first_full(l, from + 1);
            lemma_flat_split(l, from);
            assert(flat(l.take(from + 1)) =~= flat(l.take(from)));
        }
    } else {
        assert(l.take(from) =~= l);
    }
}

/// What `last_full` says.
pub proof fn lemma_last_full(l: Seq<Seq<InodeV>>, to: int)
    requires
        0 <= to <= l.len(),
    ensures
        -1 <= last_full(l, to) < to,
        forall|j: int| last_full(l, to) < j < to ==> (#[trigger] l[j]).len() == 0,
        last_full(l, to) >= 0 ==> l[last_full(l, to)].len() > 0,
        flat(l.take(last_full(l, to) + 1)) == flat(l.take(to)),
    decreases to,
{
    if to > 0 {
        if l[to - 1].len() == 0 {
            lemma_last_full(l, to - 1);
            lemma_flat_split(l, to - 1);
            assert(flat(l.take(to)) =~= flat(l.take(to - 1)));
        }
    }
}

/// Where the first key is.
pub open spec fn first_spot(cur: Seq<Seq<InodeV>>, mem: Seq<bool>) -> Spot {
    let l = first_full(cur, 0);
    if l < cur.len() {
        Spot { leaf: l, index: 0, mem: mem[l] }
    } else {
        Spot { leaf: cur.len() - 1, index: 0, mem: mem[cur.len() - 1] }
    }
}

/// Where the last key is.
pub open spec fn last_spot(cur: Seq<Seq<InodeV>>, mem: Seq<bool>) -> Spot {
    let l = last_full(cur, cur.len() as int);
    if l >= 0 {
        Spot { leaf: l, index: cur[l].len() - 1, mem: mem[l] }
    } else {
        first_spot(cur, mem)
    }
}

/// Whether there is a next key.
pub open spec fn has_next(cur: Seq<Seq<InodeV>>, seen: int, s: Spot) -> bool {
    s.index + 1 < seen || first_full(cur, s.leaf + 1) < cur.len()
}

/// Where the next key is, if there is one; else where the search for it ended.
pub open spec fn next_spot(cur: Seq<Seq<InodeV>>, mem: Seq<bool>, seen: int, s: Spot) -> Spot {
    let l = first_full(cur, s.leaf + 1);
    if s.index + 1 < seen {
        Spot { index: s.index + 1, ..s }
    } else if l < cur.len() {
        Spot { leaf: l, index: 0, mem: mem[l] }
    } else if s.leaf + 1 < cur.len() {
        Spot { leaf: cur.len() - 1, index: 0, mem: mem[cur.len() - 1] }
    } else {
        s
    }
}

/// Where a step back leads: to the element before, or to the last one of the leaf before, or from
/// the first place of all to the first key.
pub open spec fn prev_spot(cur: Seq<Seq<InodeV>>, mem: Seq<bool>, s: Spot) -> Spot {
    if s.index > 0 {
        Spot { index: s.index - 1, ..s }
    } else if s.leaf > 0 {
        let l = s.leaf - 1;
        Spot { leaf: l, index: if cur[l].len() > 0 { cur[l].len() - 1 } else { 0 }, mem: mem[l] }
    } else {
        first_spot(cur, mem)
    }
}

impl<'a> TxInner<'a> {
    /// The elements of each leaf of bucket `b`.
    pub open spec fn cur(&self, b: int) -> Seq<Seq<InodeV>> {
        lists(self.buckets@[b].tree(self.base@))
    }

    /// The elements of each leaf of bucket `b` as they are on its pages.
    pub open spec fn on_pages(&self, b: int) -> Seq<Seq<InodeV>> {
        lists(self.buckets@[b].disk(self.base@))
    }

    /// For each leaf of bucket `b` whether it is in memory.
    pub open spec fn mem(&self, b: int) -> Seq<bool> {
        match self.buckets@[b].root_node {
            Some(n) => mem_flags(*n, self.base@),
            None => Seq::new(self.cur(b).len(), |i: int| false),
        }
    }

    /// The path of a cursor leads to a leaf of bucket `b`, unless it is nowhere yet.
    pub open spec fn placed(&self, b: int, s: Seq<ElemRef>) -> bool {
        s.len() > 0 ==> on_path(self.buckets@[b].disk(self.base@), s, 0)
    }

    /// Where a cursor is.
    pub open spec fn spot(&self, b: int, s: Seq<ElemRef>) -> Spot {
        Spot {
            leaf: ordinal(self.buckets@[b].disk(self.base@), s, 0),
            index: s.last().index as int,
            mem: s.last().in_memory,
        }
    }

    /// The elements of the leaf that a cursor looks at. A leaf that came into memory only after the
    /// cursor came to it is still looked at on its page.
    pub open spec fn seen(&self, b: int, s: Spot) -> Seq<InodeV> {
        if s.mem {
            self.cur(b)[s.leaf]
        } else {
            self.on_pages(b)[s.leaf]
        }
    }

    /// The page of an inline bucket that a cursor looks at is gone.
    pub open spec fn missing(&self, b: int, s: Seq<ElemRef>) -> bool {
        &&& s.len() > 0
        &&& self.buckets@[b].header.root == 0
        &&& !s.last().in_memory
        &&& self.buckets@[b].inline_page is None
    }

    /// What holds of the leaves of a bucket.
    proof fn lemma_leaves(&self, b: int)
        requires
            self.good(),
            self.has(b),
        ensures
            self.cur(b).len() == self.on_pages(b).len(),
            self.cur(b).len() == self.mem(b).len(),
            self.cur(b).len() > 0,
            self.buckets@[b].header.root == 0 ==> self.cur(b).len() == 1,
            flat(self.cur(b)) == self.items(b),
    {
        let bk = self.buckets@[b];
        let base = self.base@;
        let t = bk.tree(base);
        let d = bk.disk(base);
        lemma_flat(t);
        lemma_full(t, None, None, true, 2);
        match bk.root_node {
            Some(n) => {
                reveal(unsplit);
                lemma_mem_len(*n, base);
                if bk.header.root != 0 {
                    lemma_alike_uses(d, t);
                }
            },
            None => {},
        }
        lemma_leaf_count(t);
    }

    /// What holds of the leaf that a path leads to.
    pub proof fn lemma_spot(&self, b: int, s: Seq<ElemRef>)
        requires
            self.good(),
            self.has(b),
            s.len() > 0,
            self.placed(b, s),
        ensures
            0 <= self.spot(b, s).leaf < self.cur(b).len(),
            self.cur(b).len() == self.on_pages(b).len(),
            self.cur(b).len() == self.mem(b).len(),
            !self.mem(b)[self.spot(b, s).leaf] && !(self.buckets@[b].header.root == 0
                && self.buckets@[b].root_node is Some) ==> self.cur(b)[self.spot(b, s).leaf] == self.on_pages(
                b,
            )[self.spot(b, s).leaf],
            self.buckets@[b].header.root != 0 ==> {
                &&& self.base@.old.contains(s.last().pgid)
                &&& self.base@.forest[s.last().pgid] is Leaf
                &&& self.on_pages(b)[self.spot(b, s).leaf] == self.base@.forest[s.last().pgid].items()
            },
            self.buckets@[b].root_node matches Some(n) ==> {
                &&& on_path(n.tree(self.base@), s, 0)
                &&& match leaf_node(*n, s, 0) {
                    Some(m) => self.mem(b)[self.spot(b, s).leaf] && self.cur(b)[self.spot(b, s).leaf] == views(m.inodes@)
                        && m.is_leaf,
                    None => !self.mem(b)[self.spot(b, s).leaf] && self.buckets@[b].header.root != 0,
                }
            },
            self.buckets@[b].header.root == 0 ==> self.spot(b, s).leaf == 0 && s.len() == 1 && s[0].pgid == 0,
    {
        let bk = self.buckets@[b];
        let base = self.base@;
        let t = bk.tree(base);
        let d = bk.disk(base);
        self.lemma_leaves(b);
        lemma_ordinal(d, s, 0);
        if bk.header.root != 0 {
            assert(bk.root_node is Some ==> base.old.contains(bk.header.root)) by {
                if bk.root_node is Some {
                    bk.root_node->0.lemma_shape(base);
                }
            }
            assert(base.page_ok(bk.header.root));
            lemma_disk_leaf(base, d, s, 0);
        }
        match bk.root_node {
            Some(n) => {
                reveal(unsplit);
                if bk.header.root != 0 {
                    lemma_path_alike(d, t, s, 0);
                }
                lemma_leaf_node(*n, base, s, 0);
            },
            None => {},
        }
    }

    /// The number of elements of the leaf that a cursor looks at.
    fn leaf_len(&self, b: BucketId, stack: &Vec<ElemRef>) -> (r: Result<usize>)
        requires
            self.good(),
            self.has(b as int),
            stack@.len() > 0,
            self.placed(b as int, stack@),
        ensures
            if self.missing(b as int, stack@) {
                r matches Err(Error::Corrupt(text)) && text@ == "inline missing"@
            } else {
                r matches Ok(n) && n == self.seen(b as int, self.spot(b as int, stack@)).len()
            },
    {
        proof {
            self.lemma_spot(b as int, stack@);
        }
        let bk = &self.buckets[b];
        let last: ElemRef = stack[stack.len() - 1];
        if last.in_memory {
            match &bk.root_node {
                Some(n) => {
                    match find_leaf(n, stack.as_slice(), 0, self.base) {
                        Some(m) => {
                            return Ok(m.inodes.len());
                        },
                        None => {},
                    }
                },
                None => {},
            }
        }
        if bk.header.root == 0 {
            return match &bk.inline_page {
                Some(page) => Ok(PageHeader::read(page.as_slice()).count as usize),
                None => Err(Error::Corrupt("inline missing".to_string())),
            };
        }
        assert(self.base@.page_ok(last.pgid));
        let page: &[u8] = self.pages.page(last.pgid);
        Ok(PageHeader::read(page).count as usize)
    }
}

impl<'a> TxInner<'a> {
    /// The element that a cursor is at, with its value or the header of the nested bucket.
    fn leaf_item(&self, b: BucketId, stack: &Vec<ElemRef>) -> (r: Inode)
        requires
            self.good(),
            self.has(b as int),
            stack@.len() > 0,
            self.placed(b as int, stack@),
            !self.missing(b as int, stack@),
            stack@.last().index < self.seen(b as int, self.spot(b as int, stack@)).len(),
        ensures
            r@ == self.seen(b as int, self.spot(b as int, stack@))[stack@.last().index as int],
    {
        proof {
            self.lemma_spot(b as int, stack@);
        }
        let bk = &self.buckets[b];
        let last: ElemRef = stack[stack.len() - 1];
        if last.in_memory {
            match &bk.root_node {
                Some(n) => {
                    match find_leaf(n, stack.as_slice(), 0, self.base) {
                        Some(m) => {
                            proof {
                                assert(views(m.inodes@)[last.index as int] == m.inodes@[last.index as int]@);
                            }
                            return m.inodes[last.index].clone();
                        },
                        None => {},
                    }
                },
                None => {},
            }
        }
        let page: &[u8] = if bk.header.root == 0 {
            bk.inline_page.as_ref().unwrap().as_slice()
        } else {
            assert(self.base@.page_ok(last.pgid));
            self.pages.page(last.pgid)
        };
        assert(elem_ok(page@, last.index as int));
        let (flags, k, v) = leaf_at(page, last.index);
        let inode = Inode { flags, pgid: 0, key: slice_to_vec(k), value: slice_to_vec(v) };
        assert(inode@ =~= decode(page@)[last.index as int]);
        inode
    }

    /// What a cursor shows where it is.
    pub fn key_value(&self, b: BucketId, stack: &Vec<ElemRef>) -> (r: Result<Kv>)
        requires
            self.good(),
            self.has(b as int),
            self.placed(b as int, stack@),
        ensures
            if stack@.len() == 0 {
                r matches Ok(kv) && kv_view(kv) == nothing()
            } else if self.missing(b as int, stack@) {
                r matches Err(Error::Corrupt(text)) && text@ == "inline missing"@
            } else {
                r matches Ok(kv) && kv_view(kv) == shown(
                    self.seen(b as int, self.spot(b as int, stack@)),
                    stack@.last().index as int,
                )
            },
    {
        if stack.len() == 0 {
            return Ok((None, None, 0));
        }
        let n: usize = match self.leaf_len(b, stack) {
            Ok(n) => n,
            Err(e) => {
                return Err(e);
            },
        };
        if stack[stack.len() - 1].index >= n {
            return Ok((None, None, 0));
        }
        let inode: Inode = self.leaf_item(b, stack);
        if inode.flags & BUCKET_LEAF_FLAG != 0 {
            Ok((Some(inode.key), None, inode.flags))
        } else {
            Ok((Some(inode.key), Some(inode.value), inode.flags))
        }
    }

    /// Looks at the leaf that the path of a cursor leads to, as it is now.
    fn settle(&self, b: BucketId, stack: &mut Vec<ElemRef>, to_last: bool)
        requires
            self.good(),
            self.has(b as int),
            old(stack)@.len() > 0,
            self.placed(b as int, old(stack)@),
        ensures
            final(stack)@ == old(stack)@.update(old(stack)@.len() - 1, final(stack)@.last()),
            self.placed(b as int, final(stack)@),
            self.spot(b as int, final(stack)@) == (Spot {
                leaf: self.spot(b as int, old(stack)@).leaf,
                index: if to_last && self.cur(b as int)[self.spot(b as int, old(stack)@).leaf].len() > 0 {
                    self.cur(b as int)[self.spot(b as int, old(stack)@).leaf].len() - 1
                } else {
                    0
                },
                mem: self.mem(b as int)[self.spot(b as int, old(stack)@).leaf],
            }),
            !self.missing(b as int, final(stack)@),
            self.seen(b as int, self.spot(b as int, final(stack)@)) == self.cur(
                b as int,
            )[self.spot(b as int, old(stack)@).leaf],
    {
        let ghost s0 = stack@;
        proof {
            self.lemma_spot(b as int, s0);
        }
        let k: usize = stack.len() - 1;
        let pgid: Pgid = stack[k].pgid;
        let in_memory: bool = match &self.buckets[b].root_node {
            Some(n) => find_leaf(n, stack.as_slice(), 0, self.base).is_some(),
            None => false,
        };
        stack.set(k, ElemRef { pgid, index: 0, in_memory });
        proof {
            lemma_path_same(self.buckets@[b as int].disk(self.base@), s0, stack@, 0);
            self.lemma_spot(b as int, stack@);
        }
        if to_last {
            let n: usize = match self.leaf_len(b, stack) {
                Ok(n) => n,
                Err(_) => 0,
            };
            if n > 0 {
                let ghost s1 = stack@;
                stack.set(k, ElemRef { pgid, index: n - 1, in_memory });
                proof {
                    lemma_path_same(self.buckets@[b as int].disk(self.base@), s1, stack@, 0);
                }
            }
        }
    }

    /// Goes to the first leaf, or to the last one.
    fn start(&self, b: BucketId, stack: &mut Vec<ElemRef>, to_last: bool)
        requires
            self.good(),
            self.has(b as int),
        ensures
            final(stack)@.len() > 0,
            self.placed(b as int, final(stack)@),
            !self.missing(b as int, final(stack)@),
            ({
                let l: int = if to_last { self.cur(b as int).len() - 1 } else { 0 };
                let n = self.cur(b as int)[l].len() as int;
                &&& self.spot(b as int, final(stack)@) == (Spot {
                    leaf: l,
                    index: if to_last && n > 0 { n - 1 } else { 0 },
                    mem: self.mem(b as int)[l],
                })
                &&& self.seen(b as int, self.spot(b as int, final(stack)@)) == self.cur(b as int)[l]
            }),
    {
        proof {
            self.lemma_leaves(b as int);
        }
        stack.clear();
        let root: Pgid = self.buckets[b].header.root;
        if root == 0 {
            stack.push(ElemRef { pgid: 0, index: 0, in_memory: false });
        } else {
            proof {
                self.lemma_root(b as int);
            }
            descend(&self.pages, root, to_last, stack, self.base);
        }
        assert(self.placed(b as int, stack@));
        self.settle(b, stack, to_last);
    }

    /// The root page of a bucket is there.
    pub proof fn lemma_root(&self, b: int)
        requires
            self.good(),
            self.has(b),
            self.buckets@[b].header.root != 0,
        ensures
            self.base@.old.contains(self.buckets@[b].header.root),
            self.base@.forest[self.buckets@[b].header.root].wf(None, None, true),
            full(self.base@.forest[self.buckets@[b].header.root]),
    {
        let bk = self.buckets@[b];
        let base = self.base@;
        match bk.root_node {
            Some(n) => {
                n.lemma_shape(base);
                reveal(unsplit);
                lemma_full(n.tree(base), None, None, true, 2);
                lemma_full_alike(base.forest[bk.header.root], n.tree(base));
            },
            None => {
                lemma_full(bk.tree(base), None, None, true, 2);
            },
        }
    }

    /// Goes to the next key.
    pub fn cursor_next(&self, b: BucketId, stack: &mut Vec<ElemRef>) -> (r: Result<Kv>)
        requires
            self.good(),
            self.has(b as int),
            self.placed(b as int, old(stack)@),
        ensures
            self.placed(b as int, final(stack)@),
            if old(stack)@.len() == 0 {
                &&& r matches Ok(kv) && kv_view(kv) == nothing()
                &&& final(stack)@ == old(stack)@
            } else if self.missing(b as int, old(stack)@) {
                &&& r matches Err(Error::Corrupt(text)) && text@ == "inline missing"@
                &&& final(stack)@ == old(stack)@
            } else {
                let s = self.spot(b as int, old(stack)@);
                let n = self.seen(b as int, s).len() as int;
                let z = self.spot(b as int, final(stack)@);
                &&& final(stack)@.len() > 0
                &&& !self.missing(b as int, final(stack)@)
                &&& z == next_spot(self.cur(b as int), self.mem(b as int), n, s)
                &&& r matches Ok(kv) && kv_view(kv) == (if has_next(self.cur(b as int), n, s) {
                    shown(self.seen(b as int, z), z.index)
                } else {
                    nothing()
                })
            },
    {
        if stack.len() == 0 {
            return Ok((None, None, 0));
        }
        let ghost s0 = stack@;
        let ghost cur = self.cur(b as int);
        let ghost z0 = self.spot(b as int, s0);
        proof {
            self.lemma_spot(b as int, s0);
            self.lemma_leaves(b as int);
        }
        let n: usize = match self.leaf_len(b, stack) {
            Ok(n) => n,
            Err(e) => {
                return Err(e);
            },
        };
        let k: usize = stack.len() - 1;
        let last: ElemRef = stack[k];
        if last.index < n && last.index + 1 < n {
            stack.set(k, ElemRef { pgid: last.pgid, index: last.index + 1, in_memory: last.in_memory });
            proof {
                lemma_path_same(self.buckets@[b as int].disk(self.base@), s0, stack@, 0);
            }
            return self.key_value(b, stack);
        }
        if self.next_full(b, stack) {
            self.key_value(b, stack)
        } else {
            Ok((None, None, 0))
        }
    }

    /// Goes to the next leaf, or to the one before, if there is one.
    fn move_leaf(&self, b: BucketId, stack: &mut Vec<ElemRef>, back: bool) -> (r: bool)
        requires
            self.good(),
            self.has(b as int),
            old(stack)@.len() > 0,
            self.placed(b as int, old(stack)@),
        ensures
            final(stack)@.len() > 0,
            self.placed(b as int, final(stack)@),
            r == (if back {
                self.spot(b as int, old(stack)@).leaf > 0
            } else {
                self.spot(b as int, old(stack)@).leaf + 1 < self.cur(b as int).len()
            }),
            !r ==> final(stack)@ == old(stack)@,
            r ==> {
                let l: int = self.spot(b as int, old(stack)@).leaf + (if back { -1int } else { 1int });
                let n = self.cur(b as int)[l].len() as int;
                &&& !self.missing(b as int, final(stack)@)
                &&& self.spot(b as int, final(stack)@) == (Spot {
                    leaf: l,
                    index: if back && n > 0 { n - 1 } else { 0 },
                    mem: self.mem(b as int)[l],
                })
                &&& self.seen(b as int, self.spot(b as int, final(stack)@)) == self.cur(b as int)[l]
            },
    {
        let ghost s0 = stack@;
        proof {
            self.lemma_spot(b as int, s0);
            self.lemma_leaves(b as int);
        }
        let root: Pgid = self.buckets[b].header.root;
        if root == 0 {
            return false;
        }
        proof {
            self.lemma_root(b as int);
        }
        if !step(&self.pages, root, back, stack, 0, self.base) {
            return false;
        }
        proof {
            self.lemma_spot(b as int, stack@);
        }
        self.settle(b, stack, back);
        true
    }

    /// Goes to the next leaf that holds anything. Says whether there is one; if not, the cursor is
    /// at the last leaf.
    fn next_full(&self, b: BucketId, stack: &mut Vec<ElemRef>) -> (r: bool)
        requires
            self.good(),
            self.has(b as int),
            old(stack)@.len() > 0,
            self.placed(b as int, old(stack)@),
            !self.missing(b as int, old(stack)@),
        ensures
            final(stack)@.len() > 0,
            self.placed(b as int, final(stack)@),
            !self.missing(b as int, final(stack)@),
            ({
                let cur = self.cur(b as int);
                let s = self.spot(b as int, old(stack)@);
                let l = first_full(cur, s.leaf + 1);
                &&& r == (l < cur.len())
                &&& r ==> {
                    &&& self.spot(b as int, final(stack)@) == (Spot { leaf: l, index: 0, mem: self.mem(b as int)[l] })
                    &&& self.seen(b as int, self.spot(b as int, final(stack)@)) == cur[l]
                }
                &&& !r && s.leaf + 1 < cur.len() ==> self.spot(b as int, final(stack)@) == (Spot {
                    leaf: cur.len() - 1,
                    index: 0,
                    mem: self.mem(b as int)[cur.len() - 1],
                })
                &&& !r && s.leaf + 1 >= cur.len() ==> final(stack)@ == old(stack)@
            }),
    {
        let ghost cur = self.cur(b as int);
        let ghost s0 = stack@;
        let ghost z0 = self.spot(b as int, s0);
        let ghost mut at = z0.leaf;
        proof {
            self.lemma_spot(b as int, s0);
            lemma_first_full(cur, z0.leaf + 1);
        }
        loop
            invariant
                self.good(),
                self.has(b as int),
                cur == self.cur(b as int),
                s0 == old(stack)@,
                z0 == self.spot(b as int, s0),
                stack@.len() > 0,
                self.placed(b as int, stack@),
                !self.missing(b as int, stack@),
                at == self.spot(b as int, stack@).leaf,
                0 <= z0.leaf <= at < cur.len(),
                first_full(cur, at + 1) == first_full(cur, z0.leaf + 1),
                at == z0.leaf ==> stack@ == s0,
                at > z0.leaf ==> self.spot(b as int, stack@) == (Spot { leaf: at, index: 0, mem: self.mem(b as int)[at] }),
            decreases cur.len() - at,
        {
            if !self.move_leaf(b, stack, false) {
                assert(first_full(cur, at + 1) == cur.len());
                return false;
            }
            proof {
                at = at + 1;
            }
            let m: usize = match self.leaf_len(b, stack) {
                Ok(m) => m,
                Err(_) => 0,
            };
            if m > 0 {
                return true;
            }
        }
    }

    /// Goes to the first key.
    pub fn cursor_first(&self, b: BucketId, stack: &mut Vec<ElemRef>) -> (r: Result<Kv>)
        requires
            self.good(),
            self.has(b as int),
        ensures
            match self.shut() {
                Some(e) => r == Err::<Kv, Error>(e) && final(stack)@ == old(stack)@,
                None => {
                    &&& final(stack)@.len() > 0
                    &&& self.placed(b as int, final(stack)@)
                    &&& !self.missing(b as int, final(stack)@)
                    &&& self.spot(b as int, final(stack)@) == first_spot(self.cur(b as int), self.mem(b as int))
                    &&& r matches Ok(kv) && kv_view(kv) == shown(self.items(b as int), 0)
                },
            },
    {
        if self.closed || !self.opened {
            return Err(Error::TxClosed);
        }
        proof {
            self.lemma_leaves(b as int);
            lemma_first_full(self.cur(b as int), 0);
            lemma_first_full(self.cur(b as int), 1);
            self.lemma_shown(b as int, first_full(self.cur(b as int), 0), 0);
            assert(self.cur(b as int).take(0) =~= Seq::<Seq<InodeV>>::empty());
            assert(flat(self.cur(b as int).take(0)).len() == 0);
        }
        self.start(b, stack, false);
        let n: usize = match self.leaf_len(b, stack) {
            Ok(n) => n,
            Err(_) => 0,
        };
        if n == 0 {
            let r: Result<Kv> = self.cursor_next(b, stack);
            proof {
                self.lemma_spot(b as int, stack@);
            }
            return r;
        }
        self.key_value(b, stack)
    }

    /// An element of a leaf is one of the bucket.
    proof fn lemma_shown(&self, b: int, leaf: int, index: int)
        requires
            self.good(),
            self.has(b),
        ensures
            0 <= leaf < self.cur(b).len() && 0 <= index < self.cur(b)[leaf].len() ==> shown(self.cur(b)[leaf], index)
                == shown(self.items(b), flat(self.cur(b).take(leaf)).len() + index),
    {
        self.lemma_leaves(b);
        let cur = self.cur(b);
        if 0 <= leaf < cur.len() && 0 <= index < cur[leaf].len() {
            lemma_flat_split(cur, leaf);
        }
    }

    /// Goes to the key before, or, from the first leaf, to the first key.
    pub fn cursor_prev(&self, b: BucketId, stack: &mut Vec<ElemRef>) -> (r: Result<Kv>)
        requires
            self.good(),
            self.has(b as int),
            self.placed(b as int, old(stack)@),
        ensures
            if old(stack)@.len() == 0 {
                &&& r matches Ok(kv) && kv_view(kv) == nothing()
                &&& final(stack)@ == old(stack)@
            } else if self.missing(b as int, old(stack)@) && old(stack)@.last().index > 0 {
                &&& r matches Err(Error::Corrupt(text)) && text@ == "inline missing"@
                &&& final(stack)@ == old(stack)@
            } else {
                let s = self.spot(b as int, old(stack)@);
                if s.index == 0 && s.leaf == 0 && self.shut() is Some {
                    r == Err::<Kv, Error>(self.shut()->0) && final(stack)@ == old(stack)@
                } else {
                    let z = self.spot(b as int, final(stack)@);
                    &&& final(stack)@.len() > 0
                    &&& self.placed(b as int, final(stack)@)
                    &&& !self.missing(b as int, final(stack)@)
                    &&& z == prev_spot(self.cur(b as int), self.mem(b as int), s)
                    &&& r matches Ok(kv) && kv_view(kv) == (if s.index == 0 && s.leaf == 0 {
                        nothing()
                    } else {
                        shown(self.seen(b as int, z), z.index)
                    })
                }
            },
    {
        if stack.len() == 0 {
            return Ok((None, None, 0));
        }
        let ghost s0 = stack@;
        proof {
            self.lemma_spot(b as int, s0);
        }
        let k: usize = stack.len() - 1;
        let last: ElemRef = stack[k];
        if last.index > 0 {
            match self.leaf_len(b, stack) {
                Ok(_) => {},
                Err(e) => {
                    return Err(e);
                },
            }
            stack.set(k, ElemRef { pgid: last.pgid, index: last.index - 1, in_memory: last.in_memory });
            proof {
                lemma_path_same(self.buckets@[b as int].disk(self.base@), s0, stack@, 0);
            }
            return self.key_value(b, stack);
        }
        if self.move_leaf(b, stack, true) {
            return self.key_value(b, stack);
        }
        match self.cursor_first(b, stack) {
            Err(e) => Err(e),
            Ok(_) => Ok((None, None, 0)),
        }
    }

    /// Goes to the last key.
    pub fn cursor_last(&self, b: BucketId, stack: &mut Vec<ElemRef>) -> (r: Result<Kv>)
        requires
            self.good(),
            self.has(b as int),
        ensures
            match self.shut() {
                Some(e) => r == Err::<Kv, Error>(e) && final(stack)@ == old(stack)@,
                None => {
                    &&& final(stack)@.len() > 0
                    &&& self.placed(b as int, final(stack)@)
                    &&& !self.missing(b as int, final(stack)@)
                    &&& self.spot(b as int, final(stack)@) == last_spot(self.cur(b as int), self.mem(b as int))
                    &&& r matches Ok(kv) && kv_view(kv) == shown(
                        self.items(b as int),
                        self.items(b as int).len() - 1,
                    )
                },
            },
    {
        if self.closed || !self.opened {
            return Err(Error::TxClosed);
        }
        let ghost cur = self.cur(b as int);
        let ghost mut at = cur.len() - 1;
        proof {
            self.lemma_leaves(b as int);
            lemma_last_full(cur, cur.len() as int);
            assert(cur.take(cur.len() as int) =~= cur);
        }
        self.start(b, stack, true);
        loop
            invariant
                self.good(),
                self.has(b as int),
                self.shut() is None,
                cur == self.cur(b as int),
                cur.len() > 0,
                flat(cur) == self.items(b as int),
                flat(cur.take(last_full(cur, cur.len() as int) + 1)) == flat(cur),
                -1 <= last_full(cur, cur.len() as int) < cur.len(),
                stack@.len() > 0,
                self.placed(b as int, stack@),
                !self.missing(b as int, stack@),
                0 <= at < cur.len(),
                last_full(cur, at + 1) == last_full(cur, cur.len() as int),
                self.spot(b as int, stack@) == (Spot {
                    leaf: at,
                    index: if cur[at].len() > 0 { cur[at].len() - 1 } else { 0 },
                    mem: self.mem(b as int)[at],
                }),
                self.seen(b as int, self.spot(b as int, stack@)) == cur[at],
            decreases at,
        {
            let n: usize = match self.leaf_len(b, stack) {
                Ok(n) => n,
                Err(_) => 0,
            };
            if n > 0 {
                proof {
                    lemma_flat_split(cur, at);
                    self.lemma_shown(b as int, at, cur[at].len() - 1);
                }
                return self.key_value(b, stack);
            }
            if !self.move_leaf(b, stack, true) {
                proof {
                    assert(last_full(cur, 0) == -1);
                    assert(cur.take(0) =~= Seq::<Seq<InodeV>>::empty());
                    assert(flat(cur.take(0)).len() == 0);
                }
                return self.cursor_first(b, stack);
            }
            proof {
                at = at - 1;
            }
        }
    }

    /// Goes to the place of a key in the leaf that it belongs to, which may be behind the last
    /// element of that leaf.
    pub fn cursor_seek(&self, b: BucketId, stack: &mut Vec<ElemRef>, key: &[u8]) -> (r: Result<Kv>)
        requires
            self.good(),
            self.has(b as int),
        ensures
            match self.shut() {
                Some(e) => r == Err::<Kv, Error>(e) && final(stack)@ == old(stack)@,
                None => {
                    let z = self.spot(b as int, final(stack)@);
                    &&& final(stack)@.len() > 0
                    &&& self.placed(b as int, final(stack)@)
                    &&& !self.missing(b as int, final(stack)@)
                    &&& 0 <= z.leaf < self.cur(b as int).len()
                    &&& z.mem == self.mem(b as int)[z.leaf]
                    &&& self.seen(b as int, z) == self.cur(b as int)[z.leaf]
                    &&& z.index == pos(self.cur(b as int)[z.leaf], key@)
                    &&& 0 <= z.index <= self.cur(b as int)[z.leaf].len()
                    &&& pos(self.items(b as int), key@) == flat(self.cur(b as int).take(z.leaf)).len() + z.index
                    &&& routed(self.buckets@[b as int].disk(self.base@), key@, final(stack)@, 0)
                    &&& r matches Ok(kv) && kv_view(kv) == shown(self.cur(b as int)[z.leaf], z.index)
                },
            },
    {
        if self.closed || !self.opened {
            return Err(Error::TxClosed);
        }
        stack.clear();
        let root: Pgid = self.buckets[b].header.root;
        if root == 0 {
            stack.push(ElemRef { pgid: 0, index: 0, in_memory: false });
        } else {
            proof {
                self.lemma_root(b as int);
            }
            seek_path(&self.pages, root, key, stack, self.base, Ghost(None), Ghost(None), Ghost(true));
        }
        let ghost s1 = stack@;
        let ghost d = self.buckets@[b as int].disk(self.base@);
        assert(self.placed(b as int, s1));
        self.settle(b, stack, false);
        let ghost s2 = stack@;
        proof {
            lemma_routed_same(d, key@, s1, s2, 0);
            self.lemma_sought(b as int, s2, key@);
        }
        let k: usize = stack.len() - 1;
        let last: ElemRef = stack[k];
        let index: usize = self.leaf_place(b, stack, key);
        stack.set(k, ElemRef { pgid: last.pgid, index, in_memory: last.in_memory });
        proof {
            lemma_path_same(self.buckets@[b as int].disk(self.base@), s2, stack@, 0);
            lemma_routed_same(d, key@, s2, stack@, 0);
        }
        self.key_value(b, stack)
    }

    /// The place of a key in the leaf that a cursor looks at.
    fn leaf_place(&self, b: BucketId, stack: &Vec<ElemRef>, key: &[u8]) -> (r: usize)
        requires
            self.good(),
            self.has(b as int),
            stack@.len() > 0,
            self.placed(b as int, stack@),
            !self.missing(b as int, stack@),
            in_order(self.seen(b as int, self.spot(b as int, stack@))),
        ensures
            r == pos(self.seen(b as int, self.spot(b as int, stack@)), key@),
    {
        proof {
            self.lemma_spot(b as int, stack@);
        }
        let bk = &self.buckets[b];
        let last: ElemRef = stack[stack.len() - 1];
        if last.in_memory {
            match &bk.root_node {
                Some(n) => {
                    match find_leaf(n, stack.as_slice(), 0, self.base) {
                        Some(m) => {
                            return m.place(key);
                        },
                        None => {},
                    }
                },
                None => {},
            }
        }
        let page: &[u8] = if bk.header.root == 0 {
            bk.inline_page.as_ref().unwrap().as_slice()
        } else {
            assert(self.base@.page_ok(last.pgid));
            self.pages.page(last.pgid)
        };
        page_place(page, key)
    }

    /// The leaf on the way of a key is the one that the key belongs to.
    proof fn lemma_sought(&self, b: int, s: Seq<ElemRef>, key: Key)
        requires
            self.good(),
            self.has(b),
            s.len() > 0,
            self.placed(b, s),
            routed(self.buckets@[b].disk(self.base@), key, s, 0),
        ensures
            ({
                let l = self.spot(b, s).leaf;
                &&& 0 <= l < self.cur(b).len()
                &&& in_order(self.cur(b)[l])
                &&& pos(self.items(b), key) == flat(self.cur(b).take(l)).len() + pos(self.cur(b)[l], key)
                &&& 0 <= pos(self.cur(b)[l], key) <= self.cur(b)[l].len()
            }),
    {
        let bk = self.buckets@[b];
        let base = self.base@;
        let t = bk.tree(base);
        let d = bk.disk(base);
        self.lemma_spot(b, s);
        match bk.root_node {
            Some(n) => {
                reveal(unsplit);
                if bk.header.root != 0 {
                    lemma_path_alike(d, t, s, 0);
                    lemma_routed_alike(d, t, key, s, 0);
                }
            },
            None => {},
        }
        lemma_routed(t, None, None, true, key, s, 0);
    }

    /// Goes to a key, or where it is not there to the next one.
    pub fn cursor_seek_may_next(&self, b: BucketId, stack: &mut Vec<ElemRef>, key: &[u8]) -> (r: Result<Kv>)
        requires
            self.good(),
            self.has(b as int),
        ensures
            match self.shut() {
                Some(e) => r == Err::<Kv, Error>(e) && final(stack)@ == old(stack)@,
                None => {
                    &&& final(stack)@.len() > 0
                    &&& self.placed(b as int, final(stack)@)
                    &&& !self.missing(b as int, final(stack)@)
                    &&& r matches Ok(kv) && kv_view(kv) == shown(
                        self.items(b as int),
                        pos(self.items(b as int), key@),
                    )
                    &&& pos(self.items(b as int), key@) < self.items(b as int).len() ==> {
                        let z = self.spot(b as int, final(stack)@);
                        &&& 0 <= z.leaf < self.cur(b as int).len()
                        &&& z.mem == self.mem(b as int)[z.leaf]
                        &&& 0 <= z.index < self.cur(b as int)[z.leaf].len()
                        &&& flat(self.cur(b as int).take(z.leaf)).len() + z.index == pos(self.items(b as int), key@)
                    }
                },
            },
    {
        let kv: Kv = match self.cursor_seek(b, stack, key) {
            Ok(kv) => kv,
            Err(e) => {
                return Err(e);
            },
        };
        let ghost cur = self.cur(b as int);
        let ghost z = self.spot(b as int, stack@);
        proof {
            self.lemma_leaves(b as int);
            lemma_flat_split(cur, z.leaf);
            self.lemma_shown(b as int, z.leaf, z.index);
            lemma_first_full(cur, z.leaf + 1);
            self.lemma_shown(b as int, first_full(cur, z.leaf + 1), 0);
        }
        let n: usize = match self.leaf_len(b, stack) {
            Ok(n) => n,
            Err(_) => 0,
        };
        if stack[stack.len() - 1].index >= n {
            let r: Result<Kv> = self.cursor_next(b, stack);
            proof {
                self.lemma_spot(b as int, stack@);
                if first_full(cur, z.leaf + 1) < cur.len() {
                    lemma_flat_split(cur, first_full(cur, z.leaf + 1));
                }
            }
            return r;
        }
        Ok(kv)
    }

    /// A cursor that has just come to element `g` of bucket `b`.
    pub open spec fn at_item(&self, b: int, z: Spot, g: int) -> bool {
        &&& 0 <= z.leaf < self.cur(b).len()
        &&& z.mem == self.mem(b)[z.leaf]
        &&& 0 <= z.index < self.cur(b)[z.leaf].len()
        &&& flat(self.cur(b).take(z.leaf)).len() + z.index == g
    }

    /// What such a cursor shows.
    pub proof fn lemma_at_item(&self, b: int, s: Seq<ElemRef>, g: int)
        requires
            self.good(),
            self.has(b),
            s.len() > 0,
            self.placed(b, s),
            self.at_item(b, self.spot(b, s), g),
        ensures
            0 <= g < self.items(b).len(),
            self.seen(b, self.spot(b, s)) == self.cur(b)[self.spot(b, s).leaf],
            shown(self.seen(b, self.spot(b, s)), self.spot(b, s).index) == shown(self.items(b), g),
    {
        let z = self.spot(b, s);
        self.lemma_spot(b, s);
        self.lemma_leaves(b);
        self.lemma_shown(b, z.leaf, z.index);
        lemma_flat_split(self.cur(b), z.leaf);
    }

    /// Where the first key is there is an element, if there is any.
    pub proof fn lemma_first_shown(&self, b: int)
        requires
            self.good(),
            self.has(b),
        ensures
            self.items(b).len() > 0 ==> self.at_item(b, first_spot(self.cur(b), self.mem(b)), 0),
            first_full(self.cur(b), 0) < self.cur(b).len() <==> self.items(b).len() > 0,
    {
        self.lemma_leaves(b);
        let cur = self.cur(b);
        lemma_first_full(cur, 0);
        assert(cur.take(0) =~= Seq::<Seq<InodeV>>::empty());
        assert(flat(cur.take(0)).len() == 0);
        let l = first_full(cur, 0);
        if l < cur.len() {
            lemma_flat_split(cur, l);
        }
    }

    /// Going on from element `g`, a cursor comes to element `g + 1`, as long as there is one.
    pub proof fn lemma_next_in_order(&self, b: int, s: Seq<ElemRef>, g: int)
        requires
            self.good(),
            self.has(b),
            s.len() > 0,
            self.placed(b, s),
            self.at_item(b, self.spot(b, s), g),
        ensures
            ({
                let z = self.spot(b, s);
                let n = self.seen(b, z).len() as int;
                &&& has_next(self.cur(b), n, z) <==> g + 1 < self.items(b).len()
                &&& g + 1 < self.items(b).len() ==> self.at_item(
                    b,
                    next_spot(self.cur(b), self.mem(b), n, z),
                    g + 1,
                )
            }),
    {
        let z = self.spot(b, s);
        let cur = self.cur(b);
        self.lemma_at_item(b, s, g);
        self.lemma_leaves(b);
        lemma_flat_split(cur, z.leaf);
        lemma_first_full(cur, z.leaf + 1);
        let l = first_full(cur, z.leaf + 1);
        if l < cur.len() {
            lemma_flat_split(cur, l);
        }
    }

    /// Going back from element `g`, a cursor comes to the one before it, unless the leaf before
    /// was emptied.
    pub proof fn lemma_prev_in_order(&self, b: int, s: Seq<ElemRef>, g: int)
        requires
            self.good(),
            self.has(b),
            s.len() > 0,
            self.placed(b, s),
            self.at_item(b, self.spot(b, s), g),
            g > 0,
            self.spot(b, s).index > 0 || self.cur(b)[self.spot(b, s).leaf - 1].len() > 0,
        ensures
            self.at_item(b, prev_spot(self.cur(b), self.mem(b), self.spot(b, s)), g - 1),
    {
        let z = self.spot(b, s);
        let cur = self.cur(b);
        if z.index == 0 {
            assert(z.leaf > 0) by {
                assert(cur.take(0) =~= Seq::<Seq<InodeV>>::empty());
                assert(flat(cur.take(0)).len() == 0);
            }
            lemma_flat_split(cur, z.leaf - 1);
        }
    }

    /// Where the last key is there is the last element, if there is any.
    pub proof fn lemma_last_shown(&self, b: int)
        requires
            self.good(),
            self.has(b),
        ensures
            self.items(b).len() > 0 ==> self.at_item(
                b,
                last_spot(self.cur(b), self.mem(b)),
                self.items(b).len() - 1,
            ),
    {
        self.lemma_leaves(b);
        let cur = self.cur(b);
        lemma_last_full(cur, cur.len() as int);
        let l = last_full(cur, cur.len() as int);
        assert(cur.take(cur.len() as int) =~= cur);
        if l >= 0 {
            lemma_flat_split(cur, l);
        }
    }

    /// Going back from the start of a leaf, a cursor comes to the leaf before and stops there, even if that
    /// was emptied: it then shows nothing, and the next step back goes on from there.
    pub proof fn lemma_prev_emptied(&self, b: int, s: Seq<ElemRef>, later: Seq<ElemRef>)
        requires
            self.good(),
            self.has(b),
            s.len() > 0,
            self.placed(b, s),
            self.spot(b, s).index == 0,
            self.spot(b, s).leaf > 0,
            self.cur(b)[self.spot(b, s).leaf - 1].len() == 0,
            later.len() > 0,
            self.placed(b, later),
            self.spot(b, later) == prev_spot(self.cur(b), self.mem(b), self.spot(b, s)),
        ensures
            self.spot(b, later).leaf == self.spot(b, s).leaf - 1,
            shown(self.seen(b, self.spot(b, later)), self.spot(b, later).index) == nothing(),
    {
        self.lemma_spot(b, s);
        self.lemma_spot(b, later);
        self.lemma_leaves(b);
    }

    /// Before the first element there is nothing: going back from it, a cursor comes to the first
    /// place of all or to a leaf that was emptied.
    pub proof fn lemma_none_before(&self, b: int, s: Seq<ElemRef>, later: Seq<ElemRef>)
        requires
            self.good(),
            self.has(b),
            s.len() > 0,
            self.placed(b, s),
            self.at_item(b, self.spot(b, s), 0),
            later.len() > 0,
            self.placed(b, later),
            self.spot(b, later) == prev_spot(self.cur(b), self.mem(b), self.spot(b, s)),
        ensures
            ({
                let z = self.spot(b, later);
                let from = self.spot(b, s);
                from.index == 0 && (from.leaf == 0 || shown(self.seen(b, z), z.index) == nothing())
            }),
    {
        let from = self.spot(b, s);
        let z = self.spot(b, later);
        let cur = self.cur(b);
        self.lemma_spot(b, later);
        self.lemma_leaves(b);
        if from.leaf > 0 {
            lemma_flat_split(cur.take(from.leaf), from.leaf - 1);
            assert(cur.take(from.leaf)[from.leaf - 1] == cur[from.leaf - 1]);
            assert(cur[from.leaf - 1].len() == 0);
        }
    }
}

/// A tree with the same branches has no empty ones either.
proof fn lemma_full_alike(t: Tree, u: Tree)
    requires
        alike(t, u),
        full(u),
    ensures
        full(t),
    decreases t,
{
    match (t, u) {
        (Tree::Branch { kids: x, .. }, Tree::Branch { kids: y, .. }) => {
            assert forall|i: int| 0 <= i < x.len() implies full(#[trigger] x[i]) by {
                assert(alike(x[i], y[i]));
                assert(full(y[i]));
                lemma_full_alike(x[i], y[i]);
            }
        },
        _ => {},
    }
}

/// A tree without empty branches has a leaf.
proof fn lemma_leaf_count(t: Tree)
    requires
        full(t),
    ensures
        t.leaves().len() > 0,
    decreases t,
{
    match t {
        Tree::Leaf { .. } => {},
        Tree::Branch { kids, .. } => {
            lemma_leaf_count(kids[0]);
            crate::tree::lemma_cat_split(kids, 0);
        },
    }
}

} // verus!
