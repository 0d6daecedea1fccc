//! The B+tree of a bucket as a mathematical object.
//!
//! A [`Tree`] is what a page and the pages below it hold. A bucket that is nested in another one
//! and has pages of its own hangs below the leaf that holds its header.
use vstd::prelude::*;
use crate::bytes::le64;
use crate::inode::InodeV;
use crate::order::{group_order, lemma_total, less, less_eq};
use crate::page::{BUCKET_LEAF_FLAG, MAX_KEY_SIZE, Pgid};

verus! {

/// A key.
pub type Key = Seq<u8>;

/// A page with all that is below it.
pub enum Tree {
    /// `subs[i]` is the root of the bucket that element `i` is the header of, where that bucket
    /// has pages of its own.
    Leaf { pgid: Pgid, over: u32, items: Seq<InodeV>, subs: Seq<Option<Tree>> },
    /// `keys[i]` separates what is below `kids[i - 1]` from what is below `kids[i]`.
    Branch { pgid: Pgid, over: u32, keys: Seq<Key>, kids: Seq<Tree> },
}

/// Whether a leaf element holds a nested bucket.
pub open spec fn is_bucket(item: InodeV) -> bool {
    item.flags & BUCKET_LEAF_FLAG != 0
}

/// The root page in the header of a nested bucket, or zero where it is inline.
pub open spec fn root_of(item: InodeV) -> Pgid {
    le64(item.value, 0)
}

/// The sequence number in the header of a nested bucket.
pub open spec fn sequence_of(item: InodeV) -> u64 {
    le64(item.value, 8)
}

// ---------------------------------------------------------------------------------------------
// Sorted lists of elements.

/// The elements are in order and no key occurs twice.
pub open spec fn in_order(s: Seq<InodeV>) -> bool {
    forall|i: int, j: int| 0 <= i < j < s.len() ==> less(#[trigger] s[i].key, #[trigger] s[j].key)
}

/// The keys are in order and none occurs twice.
pub open spec fn keys_in_order(s: Seq<Key>) -> bool {
    forall|i: int, j: int| 0 <= i < j < s.len() ==> less(#[trigger] s[i], #[trigger] s[j])
}

/// The place of `k` in a list: behind all elements with a smaller key.
pub open spec fn pos(s: Seq<InodeV>, k: Key) -> int
    decreases s.len(),
{
    if s.len() == 0 {
        0
    } else if less(s.last().key, k) {
        s.len() as int
    } else {
        pos(s.drop_last(), k)
    }
}

/// Whether an element of the list has key `k`.
pub open spec fn has_key(s: Seq<InodeV>, k: Key) -> bool {
    pos(s, k) < s.len() && s[pos(s, k)].key == k
}

/// The list with `item` in the place of its key.
pub open spec fn with_item(s: Seq<InodeV>, item: InodeV) -> Seq<InodeV> {
    if has_key(s, item.key) {
        s.update(pos(s, item.key), item)
    } else {
        s.insert(pos(s, item.key), item)
    }
}

/// The list without the element of key `k`.
pub open spec fn without_key(s: Seq<InodeV>, k: Key) -> Seq<InodeV> {
    if has_key(s, k) {
        s.remove(pos(s, k))
    } else {
        s
    }
}

/// The element of key `k`.
pub open spec fn at_key(s: Seq<InodeV>, k: Key) -> Option<InodeV> {
    if has_key(s, k) {
        Some(s[pos(s, k)])
    } else {
        None
    }
}

/// What `pos` says.
pub proof fn lemma_pos(s: Seq<InodeV>, k: Key)
    requires
        in_order(s),
    ensures
        0 <= pos(s, k) <= s.len(),
        forall|j: int| 0 <= j < pos(s, k) ==> less(#[trigger] s[j].key, k),
        forall|j: int| pos(s, k) <= j < s.len() ==> !less(#[trigger] s[j].key, k),
        forall|j: int| pos(s, k) < j < s.len() ==> less(k, #[trigger] s[j].key),
        pos(s, k) < s.len() ==> less_eq(k, s[pos(s, k)].key),
        has_key(s, k) <==> exists|j: int| 0 <= j < s.len() && #[trigger] s[j].key == k,
    decreases s.len(),
{
    broadcast use group_order;

    if s.len() > 0 {
        let n = s.len() - 1;
        if less(s.last().key, k) {
            assert forall|j: int| 0 <= j < s.len() implies less(#[trigger] s[j].key, k) by {
                if j < n {
                    assert(less(s[j].key, s[n].key));
                }
            }
        } else {
            let t = s.drop_last();
            lemma_pos(t, k);
            assert forall|j: int| 0 <= j < pos(s, k) implies less(#[trigger] s[j].key, k) by {
                assert(t[j].key == s[j].key);
            }
            assert forall|j: int| pos(s, k) <= j < s.len() implies !less(#[trigger] s[j].key, k) by {
                if j < n {
                    assert(t[j].key == s[j].key);
                }
            }
        }
    }
    let q = pos(s, k);
    if q < s.len() {
        lemma_total(s[q].key, k);
        assert forall|j: int| q < j < s.len() implies less(k, #[trigger] s[j].key) by {
            assert(less(s[q].key, s[j].key));
        }
    }
}

/// A list split at two places: what is smaller than `k` in front and what is greater behind do
/// not matter for the place of `k`.
pub proof fn lemma_pos_within(a: Seq<InodeV>, m: Seq<InodeV>, b: Seq<InodeV>, k: Key)
    requires
        in_order(a + m + b),
        forall|j: int| 0 <= j < a.len() ==> less(#[trigger] a[j].key, k),
        forall|j: int| 0 <= j < b.len() ==> less(k, #[trigger] b[j].key),
    ensures
        in_order(m),
        pos(a + m + b, k) == a.len() + pos(m, k),
        has_key(a + m + b, k) == has_key(m, k),
        0 <= pos(m, k) <= m.len(),
        has_key(m, k) ==> (a + m + b)[pos(a + m + b, k)] == m[pos(m, k)],
        without_key(a + m + b, k) == a + without_key(m, k) + b,
{
    broadcast use group_order;

    let s = a + m + b;
    assert forall|i: int, j: int| 0 <= i < j < m.len() implies less(#[trigger] m[i].key, #[trigger] m[j].key) by {
        assert(s[a.len() + i].key == m[i].key);
        assert(s[a.len() + j].key == m[j].key);
    }
    lemma_pos(s, k);
    lemma_pos(m, k);
    let p = pos(s, k);
    let q = a.len() + pos(m, k);
    if p < q {
        if p < a.len() {
            assert(s[p].key == a[p].key);
        } else {
            assert(s[p].key == m[p - a.len()].key);
        }
    } else if q < p {
        if q < a.len() + m.len() {
            assert(s[q].key == m[q - a.len()].key);
        } else {
            assert(s[q].key == b[q - a.len() - m.len()].key);
        }
    }
    if q < a.len() + m.len() {
        assert(s[q] == m[q - a.len()]);
    } else if q < s.len() {
        assert(s[q] == b[q - a.len() - m.len()]);
    }
    assert(without_key(s, k) =~= a + without_key(m, k) + b);
}

/// The same for putting an element in its place.
pub proof fn lemma_with_item_within(a: Seq<InodeV>, m: Seq<InodeV>, b: Seq<InodeV>, item: InodeV)
    requires
        in_order(a + m + b),
        forall|j: int| 0 <= j < a.len() ==> less(#[trigger] a[j].key, item.key),
        forall|j: int| 0 <= j < b.len() ==> less(item.key, #[trigger] b[j].key),
    ensures
        with_item(a + m + b, item) == a + with_item(m, item) + b,
{
    lemma_pos_within(a, m, b, item.key);
    assert(with_item(a + m + b, item) =~= a + with_item(m, item) + b);
}

/// Putting an element in its place keeps the order.
pub proof fn lemma_with_item(s: Seq<InodeV>, item: InodeV)
    requires
        in_order(s),
    ensures
        in_order(with_item(s, item)),
        forall|k: Key| #[trigger]
            at_key(with_item(s, item), k) == (if k == item.key { Some(item) } else { at_key(s, k) }),
{
    broadcast use group_order;

    lemma_pos(s, item.key);
    let t = with_item(s, item);
    let q = pos(s, item.key);
    let gap: int = if has_key(s, item.key) { 0 } else { 1 };
    assert forall|i: int| 0 <= i < t.len() implies #[trigger] t[i] == (if i < q {
        s[i]
    } else if i == q {
        item
    } else {
        s[i - gap]
    }) by {
    }
    assert forall|i: int, j: int| 0 <= i < j < t.len() implies less(#[trigger] t[i].key, #[trigger] t[j].key) by {
        let a = if i < q { i } else { i - gap };
        let b = if j < q { j } else { j - gap };
        if i != q && j != q {
            assert(less(s[a].key, s[b].key));
        } else if i == q {
            assert(less(item.key, s[b].key));
        } else {
            assert(less(s[a].key, item.key));
        }
    }
    assert forall|k: Key| #[trigger] at_key(t, k) == (if k == item.key { Some(item) } else { at_key(s, k) }) by {
        lemma_pos(t, k);
        lemma_pos(s, k);
        if k == item.key {
            assert(t[q].key == k);
            if pos(t, k) < q {
                assert(less(t[pos(t, k)].key, t[q].key));
            } else if q < pos(t, k) {
                assert(less(t[q].key, t[pos(t, k)].key));
            }
        } else {
            if has_key(t, k) {
                let i = pos(t, k);
                assert(s[if i < q { i } else { i - gap }].key == k);
            }
            if has_key(s, k) {
                let i = pos(s, k);
                let j = if i < q { i } else { i + gap };
                assert(t[j].key == k);
                let p = pos(t, k);
                if p < j {
                    assert(less(t[p].key, t[j].key));
                } else if j < p {
                    assert(less(t[j].key, t[p].key));
                }
            }
        }
    }
}

/// Taking an element out keeps the order.
pub proof fn lemma_without_key(s: Seq<InodeV>, key: Key)
    requires
        in_order(s),
    ensures
        in_order(without_key(s, key)),
        forall|k: Key| #[trigger]
            at_key(without_key(s, key), k) == (if k == key { None::<InodeV> } else { at_key(s, k) }),
{
    broadcast use group_order;

    lemma_pos(s, key);
    let t = without_key(s, key);
    let q = pos(s, key);
    if has_key(s, key) {
        assert forall|i: int| 0 <= i < t.len() implies #[trigger] t[i] == (if i < q {
            s[i]
        } else {
            s[i + 1]
        }) by {
        }
        assert forall|i: int, j: int| 0 <= i < j < t.len() implies less(#[trigger] t[i].key, #[trigger] t[j].key) by {
            let a = if i < q { i } else { i + 1 };
            let b = if j < q { j } else { j + 1 };
            assert(less(s[a].key, s[b].key));
        }
    }
    assert forall|k: Key| #[trigger] at_key(t, k) == (if k == key { None::<InodeV> } else { at_key(s, k) }) by {
        lemma_pos(t, k);
        lemma_pos(s, k);
        if k == key && has_key(t, k) {
            let i = pos(t, key);
            let j = if i < q { i } else { i + 1 };
            assert(s[j].key == key);
            if j < q {
                assert(less(s[j].key, s[q].key));
            } else {
                assert(less(s[q].key, s[j].key));
            }
        }
        if k != key && has_key(s, key) {
            if has_key(t, k) {
                let i = pos(t, k);
                assert(s[if i < q { i } else { i + 1 }].key == k);
            }
            if has_key(s, k) {
                let i = pos(s, k);
                let j = if i < q { i } else { i - 1 };
                assert(t[j].key == k);
                let p = pos(t, k);
                if p < j {
                    assert(less(t[p].key, t[j].key));
                } else if j < p {
                    assert(less(t[j].key, t[p].key));
                }
            }
        }
    }
}

// ---------------------------------------------------------------------------------------------
// Trees.

impl Tree {
    /// The page of the root.
    pub open spec fn pgid(self) -> Pgid {
        match self {
            Tree::Leaf { pgid, .. } => pgid,
            Tree::Branch { pgid, .. } => pgid,
        }
    }

    /// The number of pages that the page of the root overflows into.
    pub open spec fn over(self) -> u32 {
        match self {
            Tree::Leaf { over, .. } => over,
            Tree::Branch { over, .. } => over,
        }
    }

    /// All elements of the leaves, in order.
    pub open spec fn items(self) -> Seq<InodeV>
        decreases self,
    {
        match self {
            Tree::Leaf { items, .. } => items,
            Tree::Branch { kids, .. } => cat(kids),
        }
    }

    /// The bucket roots that hang below the elements of the leaves, in the order of `items`.
    pub open spec fn subs(self) -> Seq<Option<Tree>>
        decreases self,
    {
        match self {
            Tree::Leaf { subs, .. } => subs,
            Tree::Branch { kids, .. } => cat_subs(kids),
        }
    }

    /// The leaves, in order.
    pub open spec fn leaves(self) -> Seq<Tree>
        decreases self,
    {
        match self {
            Tree::Leaf { .. } => seq![self],
            Tree::Branch { kids, .. } => cat_leaves(kids),
        }
    }

    /// How often the page of the root, with its overflow, covers page `p`. A root without a page
    /// has id zero.
    pub open spec fn own(self, p: Pgid) -> nat {
        if self.pgid() != 0 && self.pgid() <= p <= self.pgid() + self.over() {
            1
        } else {
            0
        }
    }

    /// How often page `p` is used by the pages of this bucket.
    pub open spec fn uses(self, p: Pgid) -> nat
        decreases self,
    {
        match self {
            Tree::Leaf { .. } => self.own(p),
            Tree::Branch { kids, .. } => self.own(p) + kids_use(kids, p),
        }
    }

    /// How often page `p` is used by the pages of this bucket and of those nested in it.
    pub open spec fn refs(self, p: Pgid) -> nat
        decreases self,
    {
        match self {
            Tree::Leaf { subs, .. } => self.own(p) + subs_ref(subs, p),
            Tree::Branch { kids, .. } => self.own(p) + kids_ref(kids, p),
        }
    }

    /// The first key on the page of the root.
    pub open spec fn first_key(self) -> Option<Key> {
        match self {
            Tree::Leaf { items, .. } => if items.len() == 0 { None } else { Some(items[0].key) },
            Tree::Branch { keys, .. } => if keys.len() == 0 { None } else { Some(keys[0]) },
        }
    }

    /// The number of branches above each leaf.
    pub open spec fn height(self) -> nat
        decreases self,
    {
        match self {
            Tree::Leaf { .. } => 0,
            Tree::Branch { kids, .. } => if kids.len() == 0 { 1 } else { 1 + kids[0].height() },
        }
    }

    /// The keys are in order and lie between `lo` and `hi`, branches have at least two children
    /// of the same height, and what is below each child lies between its key and the next one.
    /// Below the leftmost child of the leftmost branch there may be keys before that child's key.
    /// In a `tight` tree the first key of a branch is the one that its parent has for it.
    pub open spec fn wf(self, lo: Option<Key>, hi: Option<Key>, tight: bool) -> bool {
        self.wf_from(lo, hi, tight, 2)
    }

    /// The same of a tree whose root has at least `least` children if it is a branch.
    #[verifier::opaque]
    pub open spec fn wf_from(self, lo: Option<Key>, hi: Option<Key>, tight: bool, least: int) -> bool
        decreases self,
    {
        match self {
            Tree::Leaf { items, subs, .. } => {
                &&& in_order(items)
                &&& forall|i: int| 0 <= i < items.len() ==> key_ok(#[trigger] items[i].key, lo, hi)
                &&& forall|i: int| 0 <= i < items.len() ==> (#[trigger] items[i]).pgid == 0
                &&& subs.len() == items.len()
            },
            Tree::Branch { keys, kids, .. } => {
                &&& keys.len() == kids.len()
                &&& keys.len() >= least
                &&& keys.len() >= 1
                &&& keys_in_order(keys)
                &&& forall|i: int| 0 <= i < keys.len() ==> key_ok(#[trigger] keys[i], lo, hi)
                &&& tight && lo is Some ==> keys[0] == lo->0
                &&& forall|i: int|
                    0 <= i < kids.len() ==> (#[trigger] kids[i]).wf_from(
                        kid_lo(keys, i, lo),
                        kid_hi(keys, i, hi),
                        tight,
                        2,
                    )
                &&& forall|i: int| 0 <= i < kids.len() ==> (#[trigger] kids[i]).height() == kids[0].height()
            },
        }
    }
}

/// A key that may stand between `lo` and `hi`.
pub open spec fn key_ok(k: Key, lo: Option<Key>, hi: Option<Key>) -> bool {
    &&& 0 < k.len() <= MAX_KEY_SIZE
    &&& lo is Some ==> less_eq(lo->0, k)
    &&& hi is Some ==> less(k, hi->0)
}

/// The lower bound of what is below child `i`.
pub open spec fn kid_lo(keys: Seq<Key>, i: int, lo: Option<Key>) -> Option<Key> {
    if i == 0 && lo is None {
        None
    } else {
        Some(keys[i])
    }
}

/// The upper bound of what is below child `i`.
pub open spec fn kid_hi(keys: Seq<Key>, i: int, hi: Option<Key>) -> Option<Key> {
    if i + 1 < keys.len() {
        Some(keys[i + 1])
    } else {
        hi
    }
}

/// The elements below a list of children.
pub open spec fn cat(kids: Seq<Tree>) -> Seq<InodeV>
    decreases kids,
{
    if kids.len() == 0 {
        Seq::empty()
    } else {
        cat(kids.drop_last()) + kids.last().items()
    }
}

/// The bucket roots below a list of children.
pub open spec fn cat_subs(kids: Seq<Tree>) -> Seq<Option<Tree>>
    decreases kids,
{
    if kids.len() == 0 {
        Seq::empty()
    } else {
        cat_subs(kids.drop_last()) + kids.last().subs()
    }
}

/// The leaves below a list of children.
pub open spec fn cat_leaves(kids: Seq<Tree>) -> Seq<Tree>
    decreases kids,
{
    if kids.len() == 0 {
        Seq::empty()
    } else {
        cat_leaves(kids.drop_last()) + kids.last().leaves()
    }
}

/// How often a list of children uses page `p`.
pub open spec fn kids_use(kids: Seq<Tree>, p: Pgid) -> nat
    decreases kids,
{
    if kids.len() == 0 {
        0
    } else {
        kids_use(kids.drop_last(), p) + kids.last().uses(p)
    }
}

/// How often a list of children and the buckets nested in them use page `p`.
pub open spec fn kids_ref(kids: Seq<Tree>, p: Pgid) -> nat
    decreases kids,
{
    if kids.len() == 0 {
        0
    } else {
        kids_ref(kids.drop_last(), p) + kids.last().refs(p)
    }
}

/// How often the buckets nested in a leaf use page `p`.
pub open spec fn subs_ref(subs: Seq<Option<Tree>>, p: Pgid) -> nat
    decreases subs,
{
    if subs.len() == 0 {
        0
    } else {
        subs_ref(subs.drop_last(), p) + (match subs.last() {
            Some(t) => t.refs(p),
            None => 0,
        })
    }
}

// ---------------------------------------------------------------------------------------------
// Lists of children.

/// What is below two lists of children one after the other.
pub proof fn lemma_cat_add(a: Seq<Tree>, b: Seq<Tree>)
    ensures
        cat(a + b) == cat(a) + cat(b),
        cat_subs(a + b) == cat_subs(a) + cat_subs(b),
        cat_leaves(a + b) == cat_leaves(a) + cat_leaves(b),
        forall|p: Pgid| #[trigger] kids_use(a + b, p) == kids_use(a, p) + kids_use(b, p),
        forall|p: Pgid| #[trigger] kids_ref(a + b, p) == kids_ref(a, p) + kids_ref(b, p),
    decreases b.len(),
{
    if b.len() == 0 {
        assert(a + b =~= a);
        assert(cat(a) + cat(b) =~= cat(a));
        assert(cat_subs(a) + cat_subs(b) =~= cat_subs(a));
        assert(cat_leaves(a) + cat_leaves(b) =~= cat_leaves(a));
    } else {
        lemma_cat_add(a, b.drop_last());
        assert((a + b).drop_last() =~= a + b.drop_last());
        assert((a + b).last() == b.last());
        assert(cat(a + b) =~= cat(a) + cat(b));
        assert(cat_subs(a + b) =~= cat_subs(a) + cat_subs(b));
        assert(cat_leaves(a + b) =~= cat_leaves(a) + cat_leaves(b));
        assert forall|p: Pgid| #[trigger] kids_use(a + b, p) == kids_use(a, p) + kids_use(b, p) by {
            assert(kids_use(a + b.drop_last(), p) == kids_use(a, p) + kids_use(b.drop_last(), p));
        }
        assert forall|p: Pgid| #[trigger] kids_ref(a + b, p) == kids_ref(a, p) + kids_ref(b, p) by {
            assert(kids_ref(a + b.drop_last(), p) == kids_ref(a, p) + kids_ref(b.drop_last(), p));
        }
    }
}

/// What is below one child.
pub proof fn lemma_cat_one(t: Tree)
    ensures
        cat(seq![t]) == t.items(),
        cat_subs(seq![t]) == t.subs(),
        cat_leaves(seq![t]) == t.leaves(),
        forall|p: Pgid| #[trigger] kids_use(seq![t], p) == t.uses(p),
        forall|p: Pgid| #[trigger] kids_ref(seq![t], p) == t.refs(p),
{
    let s = seq![t];
    assert(s.drop_last() =~= Seq::<Tree>::empty());
    assert(s.last() == t);
    assert(cat(s.drop_last()) + t.items() =~= t.items());
    assert(cat_subs(s.drop_last()) + t.subs() =~= t.subs());
    assert(cat_leaves(s.drop_last()) + t.leaves() =~= t.leaves());
    assert forall|p: Pgid| #[trigger] kids_use(s, p) == t.uses(p) by {
        assert(kids_use(s.drop_last(), p) == 0);
    }
    assert forall|p: Pgid| #[trigger] kids_ref(s, p) == t.refs(p) by {
        assert(kids_ref(s.drop_last(), p) == 0);
    }
}

/// What is below a list of children, with child `i` set apart.
pub proof fn lemma_cat_split(kids: Seq<Tree>, i: int)
    requires
        0 <= i < kids.len(),
    ensures
        cat(kids) == cat(kids.take(i)) + kids[i].items() + cat(kids.skip(i + 1)),
        cat_subs(kids) == cat_subs(kids.take(i)) + kids[i].subs() + cat_subs(kids.skip(i + 1)),
        cat_leaves(kids) == cat_leaves(kids.take(i)) + kids[i].leaves() + cat_leaves(kids.skip(i + 1)),
        forall|p: Pgid| #[trigger]
            kids_use(kids, p) == kids_use(kids.take(i), p) + kids[i].uses(p) + kids_use(kids.skip(i + 1), p),
        forall|p: Pgid| #[trigger]
            kids_ref(kids, p) == kids_ref(kids.take(i), p) + kids[i].refs(p) + kids_ref(kids.skip(i + 1), p),
{
    let a = kids.take(i);
    let m = seq![kids[i]];
    let b = kids.skip(i + 1);
    assert(kids =~= a + m + b);
    lemma_cat_add(a + m, b);
    lemma_cat_add(a, m);
    lemma_cat_one(kids[i]);
    assert forall|p: Pgid| #[trigger] kids_use(kids, p) == kids_use(a, p) + kids[i].uses(p) + kids_use(b, p) by {
        assert(kids_use(a + m + b, p) == kids_use(a + m, p) + kids_use(b, p));
        assert(kids_use(a + m, p) == kids_use(a, p) + kids_use(m, p));
        assert(kids_use(m, p) == kids[i].uses(p));
    }
    assert forall|p: Pgid| #[trigger] kids_ref(kids, p) == kids_ref(a, p) + kids[i].refs(p) + kids_ref(b, p) by {
        assert(kids_ref(a + m + b, p) == kids_ref(a + m, p) + kids_ref(b, p));
        assert(kids_ref(a + m, p) == kids_ref(a, p) + kids_ref(m, p));
        assert(kids_ref(m, p) == kids[i].refs(p));
    }
}

/// What is below a list of children one of which is replaced.
pub proof fn lemma_cat_update(kids: Seq<Tree>, i: int, t: Tree)
    requires
        0 <= i < kids.len(),
    ensures
        cat(kids.update(i, t)) == cat(kids.take(i)) + t.items() + cat(kids.skip(i + 1)),
        cat_subs(kids.update(i, t)) == cat_subs(kids.take(i)) + t.subs() + cat_subs(kids.skip(i + 1)),
        cat_leaves(kids.update(i, t)) == cat_leaves(kids.take(i)) + t.leaves() + cat_leaves(kids.skip(i + 1)),
        forall|p: Pgid| #[trigger]
            kids_use(kids.update(i, t), p) == kids_use(kids, p) - kids[i].uses(p) + t.uses(p),
        forall|p: Pgid| #[trigger]
            kids_ref(kids.update(i, t), p) == kids_ref(kids, p) - kids[i].refs(p) + t.refs(p),
{
    let u = kids.update(i, t);
    lemma_cat_split(kids, i);
    lemma_cat_split(u, i);
    assert(u.take(i) =~= kids.take(i));
    assert(u.skip(i + 1) =~= kids.skip(i + 1));
    assert forall|p: Pgid| #[trigger] kids_use(u, p) == kids_use(kids, p) - kids[i].uses(p) + t.uses(p) by {
        assert(kids_use(kids, p) == kids_use(kids.take(i), p) + kids[i].uses(p) + kids_use(kids.skip(i + 1), p));
    }
    assert forall|p: Pgid| #[trigger] kids_ref(u, p) == kids_ref(kids, p) - kids[i].refs(p) + t.refs(p) by {
        assert(kids_ref(kids, p) == kids_ref(kids.take(i), p) + kids[i].refs(p) + kids_ref(kids.skip(i + 1), p));
    }
}

/// How often nested buckets use a page, for two lists of them one after the other.
pub proof fn lemma_subs_add(a: Seq<Option<Tree>>, b: Seq<Option<Tree>>, p: Pgid)
    ensures
        subs_ref(a + b, p) == subs_ref(a, p) + subs_ref(b, p),
    decreases b.len(),
{
    if b.len() == 0 {
        assert(a + b =~= a);
    } else {
        lemma_subs_add(a, b.drop_last(), p);
        assert((a + b).drop_last() =~= a + b.drop_last());
        assert((a + b).last() == b.last());
    }
}

/// A bucket and those nested in it use what the pages of the bucket use and what the nested ones
/// use.
pub proof fn lemma_refs_split(t: Tree, p: Pgid)
    ensures
        t.refs(p) == t.uses(p) + subs_ref(t.subs(), p),
    decreases t,
{
    match t {
        Tree::Leaf { .. } => {},
        Tree::Branch { kids, .. } => {
            lemma_kids_split(kids, p);
        },
    }
}

proof fn lemma_kids_split(kids: Seq<Tree>, p: Pgid)
    ensures
        kids_ref(kids, p) == kids_use(kids, p) + subs_ref(cat_subs(kids), p),
    decreases kids,
{
    if kids.len() > 0 {
        lemma_kids_split(kids.drop_last(), p);
        lemma_refs_split(kids.last(), p);
        lemma_subs_add(cat_subs(kids.drop_last()), kids.last().subs(), p);
    }
}

// ---------------------------------------------------------------------------------------------
// What well-formed trees hold.

/// The elements of a well-formed tree are in order and between its bounds.
pub proof fn lemma_wf_items(t: Tree, lo: Option<Key>, hi: Option<Key>, tight: bool)
    requires
        t.wf_from(lo, hi, tight, 1),
    ensures
        in_order(t.items()),
        forall|i: int| 0 <= i < t.items().len() ==> key_ok(#[trigger] t.items()[i].key, lo, hi),
        forall|i: int| 0 <= i < t.items().len() ==> (#[trigger] t.items()[i]).pgid == 0,
        t.subs().len() == t.items().len(),
    decreases t,
{
    reveal(Tree::wf_from);
    match t {
        Tree::Leaf { .. } => {},
        Tree::Branch { keys, kids, .. } => {
            lemma_kids_items(t, keys, kids, lo, hi, tight, kids.len() as int);
            assert(kids.take(kids.len() as int) =~= kids);
        },
    }
}

/// What a well-formed branch is.
pub proof fn lemma_wf_branch(t: Tree, lo: Option<Key>, hi: Option<Key>, tight: bool, least: int)
    requires
        t.wf_from(lo, hi, tight, least),
        t is Branch,
    ensures
        keys_in_order(t->keys),
        t->keys.len() == t->kids.len(),
        t->keys.len() >= least,
        t->keys.len() >= 1,
        forall|i: int|
            0 <= i < t->kids.len() ==> (#[trigger] t->kids[i]).wf_from(
                kid_lo(t->keys, i, lo),
                kid_hi(t->keys, i, hi),
                tight,
                2,
            ),
{
    reveal(Tree::wf_from);
}

/// A root with at least two children has at least one.
pub proof fn lemma_wf_one(t: Tree, lo: Option<Key>, hi: Option<Key>, tight: bool)
    requires
        t.wf(lo, hi, tight),
    ensures
        t.wf_from(lo, hi, tight, 1),
{
    reveal(Tree::wf_from);
}

/// The elements below the first `n` children are in order, and before the key of the next one.
proof fn lemma_kids_items(
    t: Tree,
    keys: Seq<Key>,
    kids: Seq<Tree>,
    lo: Option<Key>,
    hi: Option<Key>,
    tight: bool,
    n: int,
)
    requires
        t.wf_from(lo, hi, tight, 1),
        t is Branch,
        t->keys == keys,
        t->kids == kids,
        0 <= n <= kids.len(),
    ensures
        in_order(cat(kids.take(n))),
        forall|i: int| #![trigger cat(kids.take(n))[i]]
            0 <= i < cat(kids.take(n)).len() ==> key_ok(cat(kids.take(n))[i].key, lo, hi) && (n < kids.len()
                ==> less(cat(kids.take(n))[i].key, keys[n])) && cat(kids.take(n))[i].pgid == 0,
        cat_subs(kids.take(n)).len() == cat(kids.take(n)).len(),
    decreases t, n,
{
    reveal(Tree::wf_from);
    broadcast use group_order;

    if n == 0 {
        assert(kids.take(0) =~= Seq::<Tree>::empty());
    } else {
        lemma_kids_items(t, keys, kids, lo, hi, tight, n - 1);
        let i = n - 1;
        assert(kids[i].wf(kid_lo(keys, i, lo), kid_hi(keys, i, hi), tight));
        lemma_wf_items(kids[i], kid_lo(keys, i, lo), kid_hi(keys, i, hi), tight);
        let a = cat(kids.take(i));
        let b = kids[i].items();
        assert(kids.take(n).drop_last() =~= kids.take(i));
        assert(kids.take(n).last() == kids[i]);
        let s = cat(kids.take(n));
        assert(s == a + b);
        assert(key_ok(keys[i], lo, hi));
        assert forall|j: int| #![trigger s[j]] 0 <= j < s.len() implies key_ok(s[j].key, lo, hi) && (n < kids.len()
            ==> less(s[j].key, keys[n])) && s[j].pgid == 0 by {
            if j < a.len() {
                assert(s[j] == a[j]);
                if n < kids.len() {
                    assert(less(keys[i], keys[n]));
                }
            } else {
                let x = b[j - a.len()];
                assert(s[j] == x);
                assert(key_ok(x.key, kid_lo(keys, i, lo), kid_hi(keys, i, hi)));
                if n < kids.len() {
                    assert(key_ok(keys[n], lo, hi));
                }
            }
        }
        assert forall|x: int, y: int| 0 <= x < y < s.len() implies less(#[trigger] s[x].key, #[trigger] s[y].key) by {
            if y < a.len() {
                assert(s[x] == a[x] && s[y] == a[y]);
            } else if x >= a.len() {
                assert(s[x] == b[x - a.len()] && s[y] == b[y - a.len()]);
            } else {
                assert(s[x] == a[x] && s[y] == b[y - a.len()]);
                assert(i > 0) by {
                    if i == 0 {
                        assert(kids.take(0) =~= Seq::<Tree>::empty());
                    }
                }
                assert(less(a[x].key, keys[i]));
                assert(key_ok(b[y - a.len()].key, kid_lo(keys, i, lo), kid_hi(keys, i, hi)));
            }
        }
    }
}

/// Child `i` is the one that key `k` belongs to.
pub open spec fn routes(keys: Seq<Key>, k: Key, i: int) -> bool {
    &&& 0 <= i < keys.len()
    &&& i > 0 ==> less_eq(keys[i], k)
    &&& i + 1 < keys.len() ==> less(k, keys[i + 1])
}

/// What is below the children before and after the one that `k` belongs to is smaller or greater
/// than `k`.
pub proof fn lemma_route(t: Tree, lo: Option<Key>, hi: Option<Key>, tight: bool, k: Key, i: int)
    requires
        t.wf_from(lo, hi, tight, 1),
        t is Branch,
        routes(t->keys, k, i),
    ensures
        t.items() == cat(t->kids.take(i)) + t->kids[i].items() + cat(t->kids.skip(i + 1)),
        in_order(t.items()),
        forall|j: int| 0 <= j < cat(t->kids.take(i)).len() ==> less(#[trigger] cat(t->kids.take(i))[j].key, k),
        forall|j: int| 0 <= j < cat(t->kids.skip(i + 1)).len() ==> less(k, #[trigger] cat(t->kids.skip(i + 1))[j].key),
{
    reveal(Tree::wf_from);
    broadcast use group_order;

    let keys = t->keys;
    let kids = t->kids;
    lemma_cat_split(kids, i);
    lemma_wf_items(t, lo, hi, tight);
    lemma_kids_items(t, keys, kids, lo, hi, tight, i);
    let a = cat(kids.take(i));
    let m = kids[i].items();
    let b = cat(kids.skip(i + 1));
    assert forall|j: int| 0 <= j < a.len() implies less(#[trigger] a[j].key, k) by {
        assert(i > 0) by {
            if i == 0 {
                assert(kids.take(0) =~= Seq::<Tree>::empty());
            }
        }
        assert(less(a[j].key, keys[i]));
    }
    if i + 1 < kids.len() {
        lemma_cat_above(t, lo, hi, tight, i + 1);
    } else {
        assert(kids.skip(i + 1) =~= Seq::<Tree>::empty());
    }
}

/// What is below the children from `n` on does not come before the key of child `n`.
proof fn lemma_cat_above(t: Tree, lo: Option<Key>, hi: Option<Key>, tight: bool, n: int)
    requires
        t.wf_from(lo, hi, tight, 1),
        t is Branch,
        0 < n < t->kids.len(),
    ensures
        forall|j: int|
            0 <= j < cat(t->kids.skip(n)).len() ==> less_eq(t->keys[n], #[trigger] cat(t->kids.skip(n))[j].key),
    decreases t->kids.len() - n,
{
    reveal(Tree::wf_from);
    broadcast use group_order;

    let keys = t->keys;
    let kids = t->kids;
    let s = kids.skip(n);
    lemma_cat_split(s, 0);
    assert(s.take(0) =~= Seq::<Tree>::empty());
    assert(s.skip(1) =~= kids.skip(n + 1));
    assert(cat(s) =~= kids[n].items() + cat(kids.skip(n + 1)));
    assert(kids[n].wf(kid_lo(keys, n, lo), kid_hi(keys, n, hi), tight));
    lemma_wf_items(kids[n], kid_lo(keys, n, lo), kid_hi(keys, n, hi), tight);
    if n + 1 < kids.len() {
        lemma_cat_above(t, lo, hi, tight, n + 1);
        assert(less(keys[n], keys[n + 1]));
    } else {
        assert(kids.skip(n + 1) =~= Seq::<Tree>::empty());
    }
    let m = kids[n].items();
    assert forall|j: int| 0 <= j < cat(s).len() implies less_eq(keys[n], #[trigger] cat(s)[j].key) by {
        if j < m.len() {
            assert(cat(s)[j] == m[j]);
            assert(key_ok(m[j].key, kid_lo(keys, n, lo), kid_hi(keys, n, hi)));
        } else {
            assert(cat(s)[j] == cat(kids.skip(n + 1))[j - m.len()]);
        }
    }
}

// ---------------------------------------------------------------------------------------------
// Trees on the same pages.

/// The trees have the same pages and the same branches; only what the leaves hold may differ.
pub open spec fn alike(t: Tree, u: Tree) -> bool
    decreases t,
{
    match (t, u) {
        (Tree::Leaf { pgid: a, over: b, .. }, Tree::Leaf { pgid: c, over: d, .. }) => a == c && b == d,
        (Tree::Branch { pgid: a, over: b, keys: k, kids: x }, Tree::Branch { pgid: c, over: d, keys: l, kids: y }) => {
            &&& a == c
            &&& b == d
            &&& k == l
            &&& x.len() == y.len()
            &&& forall|i: int| #![trigger x[i]] #![trigger y[i]] 0 <= i < x.len() ==> alike(x[i], y[i])
        },
        _ => false,
    }
}

/// A tree has the same pages as itself.
pub proof fn lemma_alike_same(t: Tree)
    ensures
        alike(t, t),
    decreases t,
{
    match t {
        Tree::Leaf { .. } => {},
        Tree::Branch { kids, .. } => {
            assert forall|i: int| #![trigger kids[i]] 0 <= i < kids.len() implies alike(kids[i], kids[i]) by {
                lemma_alike_same(kids[i]);
            }
        },
    }
}

/// Being on the same pages is transitive.
pub proof fn lemma_alike_trans(t: Tree, u: Tree, v: Tree)
    requires
        alike(t, u),
        alike(u, v),
    ensures
        alike(t, v),
    decreases t,
{
    match t {
        Tree::Leaf { .. } => {},
        Tree::Branch { kids, .. } => {
            let x = u->kids;
            let y = v->kids;
            assert forall|i: int| #![trigger kids[i]] #![trigger y[i]] 0 <= i < kids.len() implies alike(kids[i], y[i]) by {
                assert(alike(kids[i], x[i]));
                assert(alike(x[i], y[i]));
                lemma_alike_trans(kids[i], x[i], y[i]);
            }
        },
    }
}

/// Trees on the same pages use the same pages.
pub proof fn lemma_alike_uses(t: Tree, u: Tree)
    requires
        alike(t, u),
    ensures
        t.height() == u.height(),
        forall|p: Pgid| #[trigger] t.uses(p) == u.uses(p),
        t.leaves().len() == u.leaves().len(),
        t.pgid() == u.pgid(),
        t.over() == u.over(),
    decreases t,
{
    match t {
        Tree::Leaf { .. } => {},
        Tree::Branch { kids, .. } => {
            lemma_alike_kids(kids, u->kids);
            if kids.len() > 0 {
                assert(alike(kids[0], u->kids[0]));
                lemma_alike_uses(kids[0], u->kids[0]);
            }
            assert forall|p: Pgid| #[trigger] t.uses(p) == u.uses(p) by {
                assert(kids_use(kids, p) == kids_use(u->kids, p));
            }
        },
    }
}

proof fn lemma_alike_kids(x: Seq<Tree>, y: Seq<Tree>)
    requires
        x.len() == y.len(),
        forall|i: int| #![trigger x[i]] 0 <= i < x.len() ==> alike(x[i], y[i]),
    ensures
        forall|p: Pgid| #[trigger] kids_use(x, p) == kids_use(y, p),
        cat_leaves(x).len() == cat_leaves(y).len(),
    decreases x,
{
    if x.len() > 0 {
        let n = x.len() - 1;
        assert(alike(x[n], y[n]));
        assert forall|i: int| #![trigger x.drop_last()[i]] 0 <= i < n implies alike(x.drop_last()[i], y.drop_last()[i]) by {
            assert(alike(x[i], y[i]));
        }
        lemma_alike_kids(x.drop_last(), y.drop_last());
        lemma_alike_uses(x.last(), y.last());
        assert forall|p: Pgid| #[trigger] kids_use(x, p) == kids_use(y, p) by {
            assert(kids_use(x.drop_last(), p) == kids_use(y.drop_last(), p));
            assert(x.last().uses(p) == y.last().uses(p));
        }
    }
}

} // verus!
