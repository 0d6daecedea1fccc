//! What the numbers of a bucket count.
use vstd::prelude::*;
use crate::bucket_stats::{branch_used, bucket_tally, item_tally, kids_tally, leaf_used, nested_kids_tally, nested_tally, own_tally, subs_tally, Tally};
use crate::contents::{cat_contents, contents, entry, inline_contents, Item};
use crate::inode::{decode, elem_ok, elem_written, lemma_data_off_mono, lemma_data_off_next, page_len, storable, storable_at, written, InodeV};
use crate::node::{inline_page, Base};
use crate::page::{header_of, Pgid};
use crate::reclaim::unused;
use crate::tree::{is_bucket, kids_ref, subs_ref, Key, Tree};
use crate::tx::TxInner;

verus! {

// ---------------------------------------------------------------------------------------------
// What there is to count.

/// How often page `p` is covered by the leaves, or by the branches, of a bucket and of those nested in
/// it.
pub open spec fn covered(t: Tree, p: Pgid, leaves: bool) -> nat
    decreases t,
{
    (if t is Leaf == leaves { t.own(p) } else { 0 }) + match t {
        Tree::Leaf { subs, .. } => covered_subs(subs, p, leaves),
        Tree::Branch { kids, .. } => covered_kids(kids, p, leaves),
    }
}

/// The same of a list of children.
pub open spec fn covered_kids(kids: Seq<Tree>, p: Pgid, leaves: bool) -> nat
    decreases kids,
{
    if kids.len() == 0 {
        0
    } else {
        covered_kids(kids.drop_last(), p, leaves) + covered(kids.last(), p, leaves)
    }
}

/// The same of the buckets in a leaf.
pub open spec fn covered_subs(subs: Seq<Option<Tree>>, p: Pgid, leaves: bool) -> nat
    decreases subs,
{
    if subs.len() == 0 {
        0
    } else {
        covered_subs(subs.drop_last(), p, leaves) + (match subs.last() {
            Some(t) => covered(t, p, leaves),
            None => 0,
        })
    }
}

/// The pages that the leaves, or the branches, of a bucket and of those nested in it cover.
pub open spec fn page_set_of(t: Tree, leaves: bool) -> Set<Pgid> {
    Set::new(|p: Pgid| covered(t, p, leaves) > 0)
}

/// The number of keys that a bucket and all buckets in it hold. A nested bucket is a key too.
pub open spec fn all_keys(held: Seq<(Key, Item)>) -> nat
    decreases held,
{
    if held.len() == 0 {
        0
    } else {
        all_keys(held.drop_last()) + 1 + keys_inside(held.last().1)
    }
}

/// The number of keys inside a bucket; there is none in a value.
pub open spec fn keys_inside(item: Item) -> nat
    decreases item,
{
    match item {
        Item::Value { .. } => 0,
        Item::Bucket { items, .. } => all_keys(items),
    }
}

/// The number of buckets in a bucket, at any depth.
pub open spec fn all_buckets(held: Seq<(Key, Item)>) -> nat
    decreases held,
{
    if held.len() == 0 {
        0
    } else {
        all_buckets(held.drop_last()) + buckets_inside(held.last().1)
    }
}

/// The number of buckets that a key stands for: none, or one and those in it.
pub open spec fn buckets_inside(item: Item) -> nat
    decreases item,
{
    match item {
        Item::Value { .. } => 0,
        Item::Bucket { items, .. } => 1 + all_buckets(items),
    }
}

/// The number of buckets in a tree, at any depth, that have pages of their own.
pub open spec fn rooted_buckets(t: Tree) -> nat
    decreases t,
{
    match t {
        Tree::Leaf { subs, .. } => rooted_subs(subs),
        Tree::Branch { kids, .. } => rooted_kids(kids),
    }
}

pub open spec fn rooted_kids(kids: Seq<Tree>) -> nat
    decreases kids,
{
    if kids.len() == 0 {
        0
    } else {
        rooted_kids(kids.drop_last()) + rooted_buckets(kids.last())
    }
}

pub open spec fn rooted_subs(subs: Seq<Option<Tree>>) -> nat
    decreases subs,
{
    if subs.len() == 0 {
        0
    } else {
        rooted_subs(subs.drop_last()) + (match subs.last() {
            Some(t) => 1 + rooted_buckets(t),
            None => 0,
        })
    }
}

/// The number of bytes of the pages of inline buckets in a tree, at any depth.
pub open spec fn inline_bytes(t: Tree) -> nat
    decreases t, 0nat,
{
    match t {
        Tree::Leaf { items, subs, .. } => inline_bytes_subs(items, subs),
        Tree::Branch { kids, .. } => inline_bytes_kids(kids),
    }
}

pub open spec fn inline_bytes_kids(kids: Seq<Tree>) -> nat
    decreases kids, 0nat,
{
    if kids.len() == 0 {
        0
    } else {
        inline_bytes_kids(kids.drop_last()) + inline_bytes(kids.last())
    }
}

pub open spec fn inline_bytes_subs(items: Seq<InodeV>, subs: Seq<Option<Tree>>) -> nat
    decreases subs, 0nat,
{
    if subs.len() == 0 {
        0
    } else {
        inline_bytes_subs(items, subs.drop_last()) + inline_bytes_item(items[subs.len() - 1], subs.last())
    }
}

pub open spec fn inline_bytes_item(item: InodeV, sub: Option<Tree>) -> nat
    decreases sub, 0nat,
{
    match sub {
        Some(t) => inline_bytes(t),
        None => if is_bucket(item) {
            inline_page(item.value).len()
        } else {
            0
        },
    }
}

/// The number of leaves, or of branches, of a bucket and of those nested in it.
pub open spec fn nodes(t: Tree, leaves: bool) -> nat
    decreases t,
{
    (if t is Leaf == leaves { 1nat } else { 0 }) + match t {
        Tree::Leaf { subs, .. } => nodes_subs(subs, leaves),
        Tree::Branch { kids, .. } => nodes_kids(kids, leaves),
    }
}

pub open spec fn nodes_kids(kids: Seq<Tree>, leaves: bool) -> nat
    decreases kids,
{
    if kids.len() == 0 {
        0
    } else {
        nodes_kids(kids.drop_last(), leaves) + nodes(kids.last(), leaves)
    }
}

pub open spec fn nodes_subs(subs: Seq<Option<Tree>>, leaves: bool) -> nat
    decreases subs,
{
    if subs.len() == 0 {
        0
    } else {
        nodes_subs(subs.drop_last(), leaves) + (match subs.last() {
            Some(t) => nodes(t, leaves),
            None => 0,
        })
    }
}

/// The number of pages that lie one below another on the way down a bucket, and from there down the
/// deepest bucket nested in it.
pub open spec fn levels_of(t: Tree) -> nat
    decreases t, 1nat,
{
    t.height() + 1 + deepest(t)
}

/// The number of levels of the deepest bucket nested in a tree.
pub open spec fn deepest(t: Tree) -> nat
    decreases t, 0nat,
{
    match t {
        Tree::Leaf { items, subs, .. } => deepest_subs(items, subs),
        Tree::Branch { kids, .. } => deepest_kids(kids),
    }
}

pub open spec fn deepest_kids(kids: Seq<Tree>) -> nat
    decreases kids, 0nat,
{
    if kids.len() == 0 {
        0
    } else {
        larger(deepest_kids(kids.drop_last()), deepest(kids.last()))
    }
}

pub open spec fn deepest_subs(items: Seq<InodeV>, subs: Seq<Option<Tree>>) -> nat
    decreases subs, 0nat,
{
    if subs.len() == 0 {
        0
    } else {
        larger(deepest_subs(items, subs.drop_last()), levels_in(items[subs.len() - 1], subs.last()))
    }
}

/// The number of levels of the bucket that an element holds, if it holds one.
pub open spec fn levels_in(item: InodeV, sub: Option<Tree>) -> nat
    decreases sub, 0nat,
{
    match sub {
        Some(t) => levels_of(t),
        None => if is_bucket(item) {
            1
        } else {
            0
        },
    }
}

pub open spec fn larger(a: nat, b: nat) -> nat {
    if a < b {
        b
    } else {
        a
    }
}

// ---------------------------------------------------------------------------------------------
// Numbers of pages.

/// The number of pages that the leaves, or the branches, are long together.
spec fn length(t: Tree, leaves: bool) -> nat
    decreases t,
{
    (if t is Leaf == leaves { (t.over() + 1) as nat } else { 0 }) + match t {
        Tree::Leaf { subs, .. } => length_subs(subs, leaves),
        Tree::Branch { kids, .. } => length_kids(kids, leaves),
    }
}

spec fn length_kids(kids: Seq<Tree>, leaves: bool) -> nat
    decreases kids,
{
    if kids.len() == 0 {
        0
    } else {
        length_kids(kids.drop_last(), leaves) + length(kids.last(), leaves)
    }
}

spec fn length_subs(subs: Seq<Option<Tree>>, leaves: bool) -> nat
    decreases subs,
{
    if subs.len() == 0 {
        0
    } else {
        length_subs(subs.drop_last(), leaves) + (match subs.last() {
            Some(t) => length(t, leaves),
            None => 0,
        })
    }
}

/// All roots are pages that there are.
spec fn on_pages(base: Base, t: Tree) -> bool {
    base.forest.contains_key(t.pgid()) && base.forest[t.pgid()] == t
}

spec fn kids_on_pages(base: Base, kids: Seq<Tree>) -> bool {
    forall|i: int| 0 <= i < kids.len() ==> on_pages(base, #[trigger] kids[i])
}

spec fn subs_on_pages(base: Base, subs: Seq<Option<Tree>>) -> bool {
    forall|i: int| 0 <= i < subs.len() ==> ((#[trigger] subs[i]) matches Some(t) ==> on_pages(base, t))
}

/// What is below a page that there is are pages that there are.
proof fn lemma_below(base: Base, t: Tree)
    requires
        base.ok(),
        on_pages(base, t),
    ensures
        t.pgid() > 1,
        t.pgid() + t.over() < u64::MAX,
        base.store[t.pgid()].len() == (t.over() + 1) * base.page_size,
        header_of(base.store[t.pgid()]).overflow == t.over(),
        t matches Tree::Branch { kids, .. } ==> kids_on_pages(base, kids),
        t matches Tree::Leaf { items, subs, .. } ==> subs_on_pages(base, subs) && subs == base.subs(items) && decode(
            base.store[t.pgid()],
        ) == items && forall|i: int| 0 <= i < items.len() ==> base.item_ok(#[trigger] items[i]),
{
    let page = base.store[t.pgid()];
    assert(base.page_ok(t.pgid()));
    match t {
        Tree::Branch { kids, .. } => {
            assert forall|i: int| 0 <= i < kids.len() implies on_pages(base, #[trigger] kids[i]) by {
                let q = decode(page)[i].pgid;
                assert(kids[i] == base.forest[q]);
                assert(base.page_ok(q));
            }
        },
        Tree::Leaf { items, subs, .. } => {
            assert forall|i: int| 0 <= i < subs.len() implies ((#[trigger] subs[i]) matches Some(u) ==> on_pages(base, u)) by {
                assert(subs[i] == base.sub(items[i]));
                assert(base.item_ok(items[i]));
                if let Some(u) = subs[i] {
                    assert(base.page_ok(crate::tree::root_of(items[i])));
                }
            }
        },
    }
}

proof fn lemma_range_len(a: int, b: int)
    requires
        0 <= a <= b <= u64::MAX,
    ensures
        Set::new(|p: Pgid| a <= p < b).finite(),
        Set::new(|p: Pgid| a <= p < b).len() == b - a,
    decreases b - a,
{
    let s = Set::new(|p: Pgid| a <= p < b);
    if a == b {
        assert(s =~= Set::empty());
    } else {
        lemma_range_len(a, b - 1);
        let r = Set::new(|p: Pgid| a <= p < b - 1);
        assert(s =~= r.insert((b - 1) as u64));
    }
}

/// Where no page is covered twice there are as many pages as the trees are long.
proof fn lemma_length(base: Base, t: Tree, leaves: bool)
    requires
        base.ok(),
        on_pages(base, t),
        forall|p: Pgid| #[trigger] covered(t, p, leaves) <= 1,
    ensures
        page_set_of(t, leaves).finite(),
        page_set_of(t, leaves).len() == length(t, leaves),
    decreases t,
{
    lemma_below(base, t);
    let own = Set::new(|p: Pgid| t.pgid() <= p < t.pgid() + t.over() + 1);
    lemma_range_len(t.pgid() as int, t.pgid() + t.over() + 1);
    let rest = match t {
        Tree::Leaf { subs, .. } => Set::new(|p: Pgid| covered_subs(subs, p, leaves) > 0),
        Tree::Branch { kids, .. } => Set::new(|p: Pgid| covered_kids(kids, p, leaves) > 0),
    };
    match t {
        Tree::Leaf { subs, .. } => {
            assert forall|p: Pgid| #[trigger] covered_subs(subs, p, leaves) <= 1 by {
                assert(covered(t, p, leaves) <= 1);
            }
            lemma_length_subs(base, subs, leaves);
        },
        Tree::Branch { kids, .. } => {
            assert forall|p: Pgid| #[trigger] covered_kids(kids, p, leaves) <= 1 by {
                assert(covered(t, p, leaves) <= 1);
            }
            lemma_length_kids(base, kids, leaves);
        },
    }
    let all = page_set_of(t, leaves);
    if t is Leaf == leaves {
        assert(all =~= own.union(rest));
        assert(own.disjoint(rest)) by {
            assert forall|p: Pgid| own.contains(p) implies !rest.contains(p) by {
                assert(covered(t, p, leaves) <= 1);
            }
        }
        vstd::set_lib::lemma_set_disjoint_lens(own, rest);
    } else {
        assert(all =~= rest);
    }
}

proof fn lemma_length_kids(base: Base, kids: Seq<Tree>, leaves: bool)
    requires
        base.ok(),
        kids_on_pages(base, kids),
        forall|p: Pgid| #[trigger] covered_kids(kids, p, leaves) <= 1,
    ensures
        Set::new(|p: Pgid| covered_kids(kids, p, leaves) > 0).finite(),
        Set::new(|p: Pgid| covered_kids(kids, p, leaves) > 0).len() == length_kids(kids, leaves),
    decreases kids,
{
    let all = Set::new(|p: Pgid| covered_kids(kids, p, leaves) > 0);
    if kids.len() == 0 {
        assert(all =~= Set::empty());
    } else {
        let front = kids.drop_last();
        let last = kids.last();
        assert(on_pages(base, kids[kids.len() - 1]));
        assert forall|i: int| 0 <= i < front.len() implies on_pages(base, #[trigger] front[i]) by {
            assert(on_pages(base, kids[i]));
        }
        assert forall|p: Pgid| #[trigger] covered_kids(front, p, leaves) <= 1 by {
            assert(covered_kids(kids, p, leaves) <= 1);
        }
        assert forall|p: Pgid| #[trigger] covered(last, p, leaves) <= 1 by {
            assert(covered_kids(kids, p, leaves) <= 1);
        }
        lemma_length_kids(base, front, leaves);
        lemma_length(base, last, leaves);
        let a = Set::new(|p: Pgid| covered_kids(front, p, leaves) > 0);
        let b = page_set_of(last, leaves);
        assert(all =~= a.union(b));
        assert(a.disjoint(b)) by {
            assert forall|p: Pgid| a.contains(p) implies !b.contains(p) by {
                assert(covered_kids(kids, p, leaves) <= 1);
            }
        }
        vstd::set_lib::lemma_set_disjoint_lens(a, b);
    }
}

proof fn lemma_length_subs(base: Base, subs: Seq<Option<Tree>>, leaves: bool)
    requires
        base.ok(),
        subs_on_pages(base, subs),
        forall|p: Pgid| #[trigger] covered_subs(subs, p, leaves) <= 1,
    ensures
        Set::new(|p: Pgid| covered_subs(subs, p, leaves) > 0).finite(),
        Set::new(|p: Pgid| covered_subs(subs, p, leaves) > 0).len() == length_subs(subs, leaves),
    decreases subs,
{
    let all = Set::new(|p: Pgid| covered_subs(subs, p, leaves) > 0);
    if subs.len() == 0 {
        assert(all =~= Set::empty());
    } else {
        let front = subs.drop_last();
        assert forall|i: int| 0 <= i < front.len() implies ((#[trigger] front[i]) matches Some(t) ==> on_pages(base, t)) by {
            assert(front[i] == subs[i]);
        }
        assert forall|p: Pgid| #[trigger] covered_subs(front, p, leaves) <= 1 by {
            assert(covered_subs(subs, p, leaves) <= 1);
        }
        lemma_length_subs(base, front, leaves);
        let a = Set::new(|p: Pgid| covered_subs(front, p, leaves) > 0);
        match subs.last() {
            Some(last) => {
                assert(subs[subs.len() - 1] == Some(last));
                assert forall|p: Pgid| #[trigger] covered(last, p, leaves) <= 1 by {
                    assert(covered_subs(subs, p, leaves) <= 1);
                }
                lemma_length(base, last, leaves);
                let b = page_set_of(last, leaves);
                assert(all =~= a.union(b));
                assert(a.disjoint(b)) by {
                    assert forall|p: Pgid| a.contains(p) implies !b.contains(p) by {
                        assert(covered_subs(subs, p, leaves) <= 1);
                    }
                }
                vstd::set_lib::lemma_set_disjoint_lens(a, b);
            },
            None => {
                assert(all =~= a);
            },
        }
    }
}

// ---------------------------------------------------------------------------------------------
// The numbers, and what they are numbers of.

/// What is counted.
struct Facts {
    /// The number of leaves and of branches, and how many pages these are long.
    leaf_n: int,
    branch_n: int,
    leaf: int,
    branch: int,
    keys: int,
    /// The number of buckets, and of those with pages of their own.
    buckets: int,
    rooted: int,
    /// The number of bytes of the pages of inline buckets.
    room: int,
}

impl Facts {
    spec fn none() -> Facts {
        Facts { leaf_n: 0, branch_n: 0, leaf: 0, branch: 0, keys: 0, buckets: 0, rooted: 0, room: 0 }
    }

    spec fn plus(self, o: Facts) -> Facts {
        Facts {
            leaf_n: self.leaf_n + o.leaf_n,
            branch_n: self.branch_n + o.branch_n,
            leaf: self.leaf + o.leaf,
            branch: self.branch + o.branch,
            keys: self.keys + o.keys,
            buckets: self.buckets + o.buckets,
            rooted: self.rooted + o.rooted,
            room: self.room + o.room,
        }
    }
}

/// Numbers that go with the facts.
spec fn fair(x: Tally, ps: int, f: Facts) -> bool {
    &&& x.leaf_page_n == f.leaf_n
    &&& x.branch_page_n == f.branch_n
    &&& x.leaf_page_n + x.leaf_overflow_n == f.leaf
    &&& x.branch_page_n + x.branch_overflow_n == f.branch
    &&& x.key_n == f.keys
    &&& x.bucket_n == f.buckets
    &&& x.inline_bucket_n == f.buckets - f.rooted
    &&& x.leaf_inuse <= f.leaf * ps
    &&& x.branch_inuse <= f.branch * ps
    &&& x.inline_bucket_inuse <= f.room
}

proof fn lemma_fair_plus(x: Tally, y: Tally, ps: int, a: Facts, b: Facts)
    requires
        fair(x, ps, a),
        fair(y, ps, b),
    ensures
        fair(x.plus(y), ps, a.plus(b)),
{
    assert((a.leaf + b.leaf) * ps == a.leaf * ps + b.leaf * ps) by (nonlinear_arith);
    assert((a.branch + b.branch) * ps == a.branch * ps + b.branch * ps) by (nonlinear_arith);
}

proof fn lemma_fair_zero(ps: int)
    ensures
        fair(Tally::zero(), ps, Facts::none()),
{
    assert(0 * ps == 0) by (nonlinear_arith);
}

/// The facts of a bucket and of those in it, without the bucket itself.
spec fn facts(t: Tree) -> Facts {
    Facts {
        leaf_n: nodes(t, true) as int,
        branch_n: nodes(t, false) as int,
        leaf: length(t, true) as int,
        branch: length(t, false) as int,
        keys: all_keys(contents(t)) as int,
        buckets: all_buckets(contents(t)) as int,
        rooted: rooted_buckets(t) as int,
        room: inline_bytes(t) as int,
    }
}

spec fn kids_facts(kids: Seq<Tree>) -> Facts {
    Facts {
        leaf_n: nodes_kids(kids, true) as int,
        branch_n: nodes_kids(kids, false) as int,
        leaf: length_kids(kids, true) as int,
        branch: length_kids(kids, false) as int,
        keys: all_keys(cat_contents(kids)) as int,
        buckets: all_buckets(cat_contents(kids)) as int,
        rooted: rooted_kids(kids) as int,
        room: inline_bytes_kids(kids) as int,
    }
}

spec fn subs_facts(items: Seq<InodeV>, subs: Seq<Option<Tree>>) -> Facts {
    Facts {
        leaf_n: nodes_subs(subs, true) as int,
        branch_n: nodes_subs(subs, false) as int,
        leaf: length_subs(subs, true) as int,
        branch: length_subs(subs, false) as int,
        keys: all_keys(first_entries(items, subs)) - subs.len(),
        buckets: all_buckets(first_entries(items, subs)) as int,
        rooted: rooted_subs(subs) as int,
        room: inline_bytes_subs(items, subs) as int,
    }
}

spec fn item_facts(item: InodeV, sub: Option<Tree>) -> Facts {
    let e = entry(item, sub).1;
    Facts {
        leaf_n: match sub {
            Some(t) => nodes(t, true) as int,
            None => 0,
        },
        branch_n: match sub {
            Some(t) => nodes(t, false) as int,
            None => 0,
        },
        leaf: match sub {
            Some(t) => length(t, true) as int,
            None => 0,
        },
        branch: match sub {
            Some(t) => length(t, false) as int,
            None => 0,
        },
        keys: keys_inside(e) as int,
        buckets: buckets_inside(e) as int,
        rooted: match sub {
            Some(t) => 1 + rooted_buckets(t) as int,
            None => 0,
        },
        room: inline_bytes_item(item, sub) as int,
    }
}

proof fn lemma_keys_add(a: Seq<(Key, Item)>, b: Seq<(Key, Item)>)
    ensures
        all_keys(a + b) == all_keys(a) + all_keys(b),
        all_buckets(a + b) == all_buckets(a) + all_buckets(b),
    decreases b.len(),
{
    if b.len() == 0 {
        assert(a + b =~= a);
    } else {
        lemma_keys_add(a, b.drop_last());
        assert((a + b).drop_last() =~= a + b.drop_last());
        assert((a + b).last() == b.last());
    }
}

/// The pages of a bucket, and the buckets in it, together.
proof fn lemma_fair(base: Base, t: Tree, depth: int)
    requires
        base.ok(),
        on_pages(base, t),
    ensures
        fair(own_tally(base, t, depth).plus(nested_tally(base, t)), base.page_size, facts(t)),
    decreases t, 0nat,
{
    lemma_below(base, t);
    let page = base.store[t.pgid()];
    let ps = base.page_size;
    let over = t.over() as int;
    assert(base.page_ok(t.pgid()));
    let count = header_of(page).count as int;
    if count > 0 {
        assert(elem_ok(page, count - 1));
    }
    assert(0 * ps == 0) by (nonlinear_arith);
    match t {
        Tree::Leaf { items, subs, .. } => {
            lemma_fair_subs(base, items, subs);
            let own = own_tally(base, t, depth);
            let mine = Facts { leaf_n: 1, leaf: over + 1, keys: items.len() as int, ..Facts::none() };
            assert(own.leaf_inuse <= page.len());
            assert(fair(own, ps, mine));
            assert(first_entries(items, subs) =~= contents(t));
            lemma_fair_plus(own, subs_tally(base, items, subs), ps, mine, subs_facts(items, subs));
            assert(mine.plus(subs_facts(items, subs)) == facts(t));
        },
        Tree::Branch { kids, .. } => {
            lemma_fair_kids(base, kids, depth + 1);
            let first = crate::bucket_stats::branch_tally(page, depth);
            let mine = Facts { branch_n: 1, branch: over + 1, ..Facts::none() };
            assert(first.branch_inuse <= page.len());
            assert(fair(first, ps, mine));
            let rest = kids_tally(base, kids, depth + 1).plus(nested_kids_tally(base, kids));
            lemma_fair_plus(first, rest, ps, mine, kids_facts(kids));
            assert(mine.plus(kids_facts(kids)) == facts(t));
        },
    }
}

proof fn lemma_fair_kids(base: Base, kids: Seq<Tree>, depth: int)
    requires
        base.ok(),
        kids_on_pages(base, kids),
    ensures
        fair(
            kids_tally(base, kids, depth).plus(nested_kids_tally(base, kids)),
            base.page_size,
            kids_facts(kids),
        ),
    decreases kids, 0nat,
{
    let ps = base.page_size;
    if kids.len() == 0 {
        lemma_fair_zero(ps);
    } else {
        let front = kids.drop_last();
        let last = kids.last();
        assert(on_pages(base, kids[kids.len() - 1]));
        assert forall|i: int| 0 <= i < front.len() implies on_pages(base, #[trigger] front[i]) by {
            assert(on_pages(base, kids[i]));
        }
        lemma_fair_kids(base, front, depth);
        lemma_fair(base, last, depth);
        lemma_keys_add(cat_contents(front), contents(last));
        lemma_fair_plus(
            kids_tally(base, front, depth).plus(nested_kids_tally(base, front)),
            own_tally(base, last, depth).plus(nested_tally(base, last)),
            ps,
            kids_facts(front),
            facts(last),
        );
    }
}

/// What leaf elements stand for.
spec fn first_entries(items: Seq<InodeV>, subs: Seq<Option<Tree>>) -> Seq<(Key, Item)> {
    Seq::new(subs.len(), |i: int| entry(items[i], subs[i]))
}

proof fn lemma_fair_subs(base: Base, items: Seq<InodeV>, subs: Seq<Option<Tree>>)
    requires
        base.ok(),
        subs_on_pages(base, subs),
        subs.len() <= items.len(),
        forall|i: int| 0 <= i < subs.len() ==> #[trigger] subs[i] == base.sub(items[i]),
        forall|i: int| 0 <= i < items.len() ==> base.item_ok(#[trigger] items[i]),
    ensures
        fair(subs_tally(base, items, subs), base.page_size, subs_facts(items, subs)),
    decreases subs, 0nat,
{
    let ps = base.page_size;
    if subs.len() == 0 {
        lemma_fair_zero(ps);
    } else {
        let n = subs.len() - 1;
        let front = subs.drop_last();
        let item = items[n];
        let sub = subs.last();
        assert(sub == subs[n]);
        assert forall|i: int| 0 <= i < front.len() implies ((#[trigger] front[i]) matches Some(t) ==> on_pages(base, t))
            && front[i] == base.sub(items[i]) by {
            assert(front[i] == subs[i]);
        }
        lemma_fair_subs(base, items, front);
        let held = first_entries(items, subs);
        assert(held.drop_last() =~= first_entries(items, front));
        assert(held.last() == entry(item, sub));
        assert(base.item_ok(item));
        lemma_fair_item(base, item, sub);
        lemma_fair_plus(
            subs_tally(base, items, front),
            item_tally(base, item, sub),
            ps,
            subs_facts(items, front),
            item_facts(item, sub),
        );
        assert(subs_facts(items, front).plus(item_facts(item, sub)) == subs_facts(items, subs));
    }
}

proof fn lemma_fair_item(base: Base, item: InodeV, sub: Option<Tree>)
    requires
        base.ok(),
        sub matches Some(t) ==> on_pages(base, t),
        sub == base.sub(item),
        base.item_ok(item),
    ensures
        fair(item_tally(base, item, sub), base.page_size, item_facts(item, sub)),
    decreases sub, 0nat,
{
    let ps = base.page_size;
    lemma_fair_zero(ps);
    if is_bucket(item) {
        match sub {
            Some(t) => {
                lemma_fair(base, t, 0);
            },
            None => {
                let page = inline_page(item.value);
                lemma_inline_keys(page);
                if header_of(page).count > 0 {
                    assert(elem_ok(page, header_of(page).count - 1));
                }
            },
        }
    }
}

proof fn lemma_inline_keys(page: Seq<u8>)
    ensures
        all_keys(inline_contents(page)) == header_of(page).count,
        all_buckets(inline_contents(page)) == 0,
{
    lemma_values(inline_contents(page));
}

proof fn lemma_values(held: Seq<(Key, Item)>)
    requires
        forall|i: int| 0 <= i < held.len() ==> (#[trigger] held[i]).1 is Value,
    ensures
        all_keys(held) == held.len(),
        all_buckets(held) == 0,
    decreases held.len(),
{
    if held.len() > 0 {
        let front = held.drop_last();
        assert forall|i: int| 0 <= i < front.len() implies (#[trigger] front[i]).1 is Value by {
            assert(front[i] == held[i]);
        }
        lemma_values(front);
        assert(held[held.len() - 1].1 is Value);
        assert(keys_inside(held.last().1) == 0);
        assert(buckets_inside(held.last().1) == 0);
    }
}

// ---------------------------------------------------------------------------------------------
// Depth.

proof fn lemma_own_depth(base: Base, t: Tree, depth: int, lo: Option<Key>, hi: Option<Key>, least: int)
    requires
        depth >= 0,
        t.wf_from(lo, hi, true, least),
    ensures
        own_tally(base, t, depth).depth == depth + t.height() + 1,
    decreases t,
{
    reveal(Tree::wf_from);
    if let Tree::Branch { keys, kids, .. } = t {
        assert forall|i: int| 0 <= i < kids.len() implies (#[trigger] own_tally(base, kids[i], depth + 1)).depth == depth
            + t.height() + 1 by {
            lemma_own_depth(
                base,
                kids[i],
                depth + 1,
                crate::tree::kid_lo(keys, i, lo),
                crate::tree::kid_hi(keys, i, hi),
                2,
            );
            assert(kids[i].height() == kids[0].height());
        }
        lemma_kids_depth(base, kids, depth + 1, depth + t.height() + 1);
    }
}

proof fn lemma_kids_depth(base: Base, kids: Seq<Tree>, depth: int, d: int)
    requires
        d >= 0,
        kids.len() > 0,
        forall|i: int| 0 <= i < kids.len() ==> (#[trigger] own_tally(base, kids[i], depth)).depth == d,
    ensures
        kids_tally(base, kids, depth).depth == d,
    decreases kids.len(),
{
    let front = kids.drop_last();
    assert(own_tally(base, kids[kids.len() - 1], depth).depth == d);
    if front.len() > 0 {
        assert forall|i: int| 0 <= i < front.len() implies (#[trigger] own_tally(base, front[i], depth)).depth == d by {
            assert(own_tally(base, kids[i], depth).depth == d);
        }
        lemma_kids_depth(base, front, depth, d);
    } else {
        assert(kids_tally(base, front, depth) == Tally::zero());
    }
}

proof fn lemma_nested_depth(base: Base, t: Tree)
    requires
        base.ok(),
        on_pages(base, t),
    ensures
        nested_tally(base, t).depth == deepest(t),
    decreases t, 0nat,
{
    lemma_below(base, t);
    match t {
        Tree::Leaf { items, subs, .. } => lemma_subs_depth(base, items, subs),
        Tree::Branch { kids, .. } => lemma_nested_kids_depth(base, kids),
    }
}

proof fn lemma_nested_kids_depth(base: Base, kids: Seq<Tree>)
    requires
        base.ok(),
        kids_on_pages(base, kids),
    ensures
        nested_kids_tally(base, kids).depth == deepest_kids(kids),
    decreases kids, 0nat,
{
    if kids.len() > 0 {
        let front = kids.drop_last();
        assert(on_pages(base, kids[kids.len() - 1]));
        assert forall|i: int| 0 <= i < front.len() implies on_pages(base, #[trigger] front[i]) by {
            assert(on_pages(base, kids[i]));
        }
        lemma_nested_kids_depth(base, front);
        lemma_nested_depth(base, kids.last());
    }
}

proof fn lemma_subs_depth(base: Base, items: Seq<InodeV>, subs: Seq<Option<Tree>>)
    requires
        base.ok(),
        subs_on_pages(base, subs),
        subs.len() <= items.len(),
        forall|i: int| 0 <= i < subs.len() ==> #[trigger] subs[i] == base.sub(items[i]),
        forall|i: int| 0 <= i < items.len() ==> base.item_ok(#[trigger] items[i]),
    ensures
        subs_tally(base, items, subs).depth == deepest_subs(items, subs),
    decreases subs, 0nat,
{
    if subs.len() > 0 {
        let n = subs.len() - 1;
        let front = subs.drop_last();
        assert(subs.last() == subs[n]);
        assert forall|i: int| 0 <= i < front.len() implies ((#[trigger] front[i]) matches Some(t) ==> on_pages(base, t))
            && front[i] == base.sub(items[i]) by {
            assert(front[i] == subs[i]);
        }
        lemma_subs_depth(base, items, front);
        assert(base.item_ok(items[n]));
        if let Some(u) = subs.last() {
            lemma_own_depth(base, u, 0, None, None, 2);
            lemma_nested_depth(base, u);
            assert(levels_in(items[n], subs.last()) == levels_of(u));
        }
        assert(item_tally(base, items[n], subs.last()).depth == levels_in(items[n], subs.last()));
    }
}

// ---------------------------------------------------------------------------------------------
// The laws.

/// Every page is covered by a leaf or by a branch.
pub proof fn lemma_covered(t: Tree, p: Pgid)
    ensures
        covered(t, p, true) + covered(t, p, false) == t.refs(p),
    decreases t,
{
    match t {
        Tree::Leaf { subs, .. } => lemma_covered_subs(subs, p),
        Tree::Branch { kids, .. } => lemma_covered_kids(kids, p),
    }
}

proof fn lemma_covered_kids(kids: Seq<Tree>, p: Pgid)
    ensures
        covered_kids(kids, p, true) + covered_kids(kids, p, false) == kids_ref(kids, p),
    decreases kids,
{
    if kids.len() > 0 {
        lemma_covered_kids(kids.drop_last(), p);
        lemma_covered(kids.last(), p);
    }
}

proof fn lemma_covered_subs(subs: Seq<Option<Tree>>, p: Pgid)
    ensures
        covered_subs(subs, p, true) + covered_subs(subs, p, false) == subs_ref(subs, p),
    decreases subs,
{
    if subs.len() > 0 {
        lemma_covered_subs(subs.drop_last(), p);
        if let Some(t) = subs.last() {
            lemma_covered(t, p);
        }
    }
}

/// The numbers of a bucket with pages of its own. The pages of the leaves, and those of the branches,
/// are as many as there are in the file, overflow included; what is allocated is their size, and what is
/// in use is no more. Every key and every bucket is counted, at whatever depth, and a bucket without
/// pages of its own as inline.
pub proof fn lemma_stats(tx: TxInner, b: int)
    requires
        tx.good(),
        tx.has(b),
        tx.buckets@[b].header.root != 0,
        forall|p: Pgid| #[trigger] tx.base@.forest[tx.buckets@[b].header.root].refs(p) <= 1,
    ensures
        ({
            let t = tx.base@.forest[tx.buckets@[b].header.root];
            let ps = tx.pages.page_size as int;
            let w = bucket_tally(tx, b);
            let leaf = page_set_of(t, true).len() as int;
            let branch = page_set_of(t, false).len() as int;
            &&& page_set_of(t, true).finite()
            &&& page_set_of(t, false).finite()
            &&& w.leaf_page_n + w.leaf_overflow_n == leaf
            &&& w.branch_page_n + w.branch_overflow_n == branch
            &&& w.leaf_page_n == nodes(t, true)
            &&& w.branch_page_n == nodes(t, false)
            &&& w.leaf_alloc == leaf * ps
            &&& w.branch_alloc == branch * ps
            &&& w.leaf_inuse <= w.leaf_alloc
            &&& w.branch_inuse <= w.branch_alloc
            &&& w.key_n == all_keys(contents(t))
            &&& w.bucket_n == 1 + all_buckets(contents(t))
            &&& w.bucket_n - w.inline_bucket_n == 1 + rooted_buckets(t)
            &&& w.inline_bucket_inuse <= inline_bytes(t)
            &&& w.depth == levels_of(t)
        }),
{
    let base = tx.base@;
    let t = base.forest[tx.buckets@[b].header.root];
    tx.lemma_root(b);
    assert(base.page_ok(tx.buckets@[b].header.root));
    assert(on_pages(base, t));
    lemma_fair(base, t, 0);
    assert forall|p: Pgid| #[trigger] covered(t, p, true) <= 1 by {
        lemma_covered(t, p);
    }
    assert forall|p: Pgid| #[trigger] covered(t, p, false) <= 1 by {
        lemma_covered(t, p);
    }
    lemma_length(base, t, true);
    lemma_length(base, t, false);
    lemma_own_depth(base, t, 0, None, None, 2);
    lemma_nested_depth(base, t);
}

/// The numbers of an inline bucket.
pub proof fn lemma_inline_stats(tx: TxInner, b: int, page: Seq<u8>)
    requires
        tx.good(),
        tx.has(b),
        tx.buckets@[b].header.root == 0,
        tx.buckets@[b].inline_page matches Some(v) && v@ == page,
        crate::node::inline_ok(page),
    ensures
        ({
            let w = bucket_tally(tx, b);
            &&& w.leaf_page_n == 0 && w.leaf_overflow_n == 0 && w.leaf_alloc == 0 && w.leaf_inuse == 0
            &&& w.branch_page_n == 0 && w.branch_overflow_n == 0 && w.branch_alloc == 0 && w.branch_inuse == 0
            &&& w.key_n == decode(page).len()
            &&& w.bucket_n == 1
            &&& w.inline_bucket_n == 1
            &&& w.depth == 1
            &&& 16 <= w.inline_bucket_inuse <= page.len()
        }),
{
    let ps = tx.base@.page_size;
    assert(0 * ps == 0) by (nonlinear_arith);
    if header_of(page).count > 0 {
        assert(elem_ok(page, header_of(page).count - 1));
    }
}

/// Of a page that elements were written to just what they take is in use.
pub proof fn lemma_used(before: Seq<u8>, page: Seq<u8>, is_leaf: bool, v: Seq<InodeV>)
    requires
        written(before, page, is_leaf, v),
        v.len() < 0xFFFF,
        storable(v),
        !is_leaf ==> forall|i: int| 0 <= i < v.len() ==> (#[trigger] v[i]).value.len() == 0,
    ensures
        is_leaf ==> leaf_used(page) == page_len(v),
        !is_leaf ==> branch_used(page) == page_len(v),
{
    let n = v.len() as int;
    if n > 0 {
        assert(elem_written(page, is_leaf, v, n - 1));
        assert(storable_at(v, n - 1));
        lemma_data_off_next(v, n - 1);
        lemma_data_off_mono(v, 0, n - 1);
        lemma_data_off_mono(v, n, n);
    } else {
        assert(crate::inode::data_len(v) == 0);
    }
}

/// The pages that are taken to be free, where no list of them is stored, are all those behind the two
/// meta pages that no leaf and no branch of any bucket covers.
pub proof fn lemma_unused(t: Tree, hwm: Pgid, p: Pgid)
    ensures
        unused(t, hwm).contains(p) <==> 2 <= p < hwm && !page_set_of(t, true).contains(p) && !page_set_of(t, false).contains(
            p,
        ),
{
    lemma_covered(t, p);
}

} // verus!
