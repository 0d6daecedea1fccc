//! Copying a database without its free pages.
use vstd::prelude::*;
use vstd::slice::slice_to_vec;
use crate::bucket::BucketId;
use crate::closing::{open_contents, open_entry};
use crate::contents::{cat_contents, contents, entry, inline_contents, Item};
use crate::error::{Error, Result};
use crate::freelist::FreelistV;
use crate::inode::{branch_pgid, decodable, decode, elem_ok, leaf_at, InodeV};
use crate::laws::{bucket_in, held_at, lemma_open_contents, lemma_put_contents, lemma_reads_contents, value_in, way_to};
use crate::node::{inline_ok, inline_page, Base, Pages};
use crate::page::{header_of, BUCKET_LEAF_FLAG, InBucket, MAX_KEY_SIZE, MAX_VALUE_SIZE, Meta, PageHeader, Pgid};
use crate::replay::{item_of, place, replayed, stepped, with_entry};
use crate::ripple::{kept, lemma_kept, lemma_ripple, lemma_same_way, lemma_sub_entry, only_in};
use crate::snapshot::{lemma_same_contents, stored};
use crate::tree::{at_key, has_key, is_bucket, lemma_pos, lemma_with_item, pos, root_of, sequence_of, with_item, Key, Tree};
use crate::tx::{bucket_at, lemma_sub_id, sub_id, subs_linked, value_at, value_item, TxInner};

verus! {

/// One step of a copy: a key with a value, or with a new bucket, in the bucket that a path of names
/// leads to. The sequence number is that of the new bucket, or of the bucket that the value is in.
pub struct Step {
    pub path: Vec<Vec<u8>>,
    pub key: Vec<u8>,
    pub value: Option<Vec<u8>>,
    pub sequence: u64,
}

/// What a step says.
#[verifier::ext_equal]
pub struct StepV {
    pub path: Seq<Key>,
    pub key: Key,
    pub value: Option<Seq<u8>>,
    pub sequence: u64,
}

/// The names of a path.
pub open spec fn names_of(path: Seq<Vec<u8>>) -> Seq<Key> {
    Seq::new(path.len(), |i: int| path[i]@)
}

impl Step {
    pub open spec fn view(&self) -> StepV {
        StepV {
            path: names_of(self.path@),
            key: self.key@,
            value: match self.value {
                Some(v) => Some(v@),
                None => None,
            },
            sequence: self.sequence,
        }
    }
}

/// What a list of steps says.
pub open spec fn steps_view(steps: Seq<Step>) -> Seq<StepV> {
    Seq::new(steps.len(), |i: int| steps[i]@)
}

/// The steps that copy what a bucket holds: each key in order, and right after a nested bucket all
/// that is in it.
pub open spec fn steps_of(held: Seq<(Key, Item)>, path: Seq<Key>, sequence: u64) -> Seq<StepV>
    decreases held,
{
    if held.len() == 0 {
        Seq::empty()
    } else {
        steps_of(held.drop_last(), path, sequence) + entry_steps(held.last(), path, sequence)
    }
}

/// The steps that copy what a key stands for.
pub open spec fn entry_steps(e: (Key, Item), path: Seq<Key>, sequence: u64) -> Seq<StepV>
    decreases e,
{
    match e.1 {
        Item::Value { bytes } => seq![StepV { path, key: e.0, value: Some(bytes), sequence }],
        Item::Bucket { sequence: own, items } => seq![StepV { path, key: e.0, value: None, sequence: own }] + steps_of(
            items,
            path.push(e.0),
            own,
        ),
    }
}

/// The steps of two lists one after the other.
proof fn lemma_steps_add(a: Seq<(Key, Item)>, b: Seq<(Key, Item)>, path: Seq<Key>, sequence: u64)
    ensures
        steps_of(a + b, path, sequence) == steps_of(a, path, sequence) + steps_of(b, path, sequence),
    decreases b.len(),
{
    if b.len() == 0 {
        assert(a + b =~= a);
        assert(steps_of(a, path, sequence) + steps_of(b, path, sequence) =~= steps_of(a, path, sequence));
    } else {
        assert((a + b).drop_last() =~= a + b.drop_last());
        lemma_steps_add(a, b.drop_last(), path, sequence);
        assert(steps_of(a + b, path, sequence) =~= steps_of(a, path, sequence) + steps_of(b, path, sequence));
    }
}

/// One more key.
proof fn lemma_steps_next(held: Seq<(Key, Item)>, i: int, path: Seq<Key>, sequence: u64)
    requires
        0 <= i < held.len(),
    ensures
        steps_of(held.take(i + 1), path, sequence) == steps_of(held.take(i), path, sequence) + entry_steps(
            held[i],
            path,
            sequence,
        ),
        held[i].1 matches Item::Value { bytes } ==> entry_steps(held[i], path, sequence) == seq![
            StepV { path, key: held[i].0, value: Some(bytes), sequence },
        ],
{
    assert(held.take(i + 1).drop_last() =~= held.take(i));
    assert(held.take(i + 1).last() == held[i]);
}

fn copy_path(path: &Vec<Vec<u8>>) -> (copy: Vec<Vec<u8>>)
    ensures
        names_of(copy@) == names_of(path@),
{
    let mut copy: Vec<Vec<u8>> = Vec::new();
    let mut i: usize = 0;
    while i < path.len()
        invariant
            i <= path@.len(),
            copy@.len() == i,
            forall|j: int| 0 <= j < i ==> (#[trigger] copy@[j])@ == path@[j]@,
        decreases path@.len() - i,
    {
        copy.push(slice_to_vec(path[i].as_slice()));
        i = i + 1;
    }
    assert(names_of(copy@) =~= names_of(path@));
    copy
}

/// Adds one step.
fn add_step(out: &mut Vec<Step>, path: &Vec<Vec<u8>>, key: &[u8], value: Option<&[u8]>, sequence: u64)
    ensures
        steps_view(final(out)@) == steps_view(old(out)@).push(
            StepV {
                path: names_of(path@),
                key: key@,
                value: match value {
                    Some(v) => Some(v@),
                    None => None,
                },
                sequence,
            },
        ),
{
    let ghost out0 = out@;
    let value: Option<Vec<u8>> = match value {
        Some(v) => Some(slice_to_vec(v)),
        None => None,
    };
    let step = Step { path: copy_path(path), key: slice_to_vec(key), value, sequence };
    let ghost v = step@;
    out.push(step);
    assert(steps_view(out@) =~= steps_view(out0).push(v));
}

/// Adds the steps that copy what is on page `p` and below it.
fn walk_tree(
    pages: &Pages,
    p: Pgid,
    path: &Vec<Vec<u8>>,
    sequence: u64,
    out: &mut Vec<Step>,
    Ghost(base): Ghost<Base>,
)
    requires
        base.ok(),
        pages.backs(base),
        forall|q: Pgid| #[trigger] base.forest.contains_key(q) ==> base.old.contains(q),
        base.old.contains(p),
    ensures
        steps_view(final(out)@) == steps_view(old(out)@) + steps_of(
            contents(base.forest[p]),
            names_of(path@),
            sequence,
        ),
    decreases base.forest[p], 0nat,
{
    assert(base.page_ok(p));
    assert(base.kids_old(p));
    let page: &[u8] = pages.page(p);
    let hdr = PageHeader::read(page);
    if hdr.is_leaf() {
        walk_items(pages, page, path, sequence, out, Ghost(p), Ghost(base));
    } else {
        walk_kids(pages, page, path, sequence, out, Ghost(p), Ghost(base));
    }
}

/// The same below a branch page.
fn walk_kids(
    pages: &Pages,
    page: &[u8],
    path: &Vec<Vec<u8>>,
    sequence: u64,
    out: &mut Vec<Step>,
    Ghost(p): Ghost<Pgid>,
    Ghost(base): Ghost<Base>,
)
    requires
        base.ok(),
        pages.backs(base),
        forall|q: Pgid| #[trigger] base.forest.contains_key(q) ==> base.old.contains(q),
        base.old.contains(p),
        page@ == base.store[p],
        base.forest[p] is Branch,
    ensures
        steps_view(final(out)@) == steps_view(old(out)@) + steps_of(
            cat_contents(base.forest[p]->kids),
            names_of(path@),
            sequence,
        ),
    decreases base.forest[p]->kids, 1nat,
{
    let ghost kids = base.forest[p]->kids;
    let ghost out0 = steps_view(out@);
    let ghost names = names_of(path@);
    assert(base.page_ok(p));
    assert(base.kids_old(p));
    let count: usize = PageHeader::read(page).count as usize;
    let mut i: usize = 0;
    assert(kids.take(0) =~= Seq::<Tree>::empty());
    assert(out0 + steps_of(cat_contents(kids.take(0)), names, sequence) =~= out0);
    while i < count
        invariant
            i <= count,
            count == kids.len(),
            kids == base.forest[p]->kids,
            base.forest[p] is Branch,
            base.ok(),
            pages.backs(base),
            forall|q: Pgid| #[trigger] base.forest.contains_key(q) ==> base.old.contains(q),
            base.page_ok(p),
            base.kids_old(p),
            page@ == base.store[p],
            count == header_of(page@).count,
            decodable(page@),
            names == names_of(path@),
            steps_view(out@) == out0 + steps_of(cat_contents(kids.take(i as int)), names, sequence),
        decreases count - i,
    {
        assert(elem_ok(page@, i as int));
        let child: Pgid = branch_pgid(page, i);
        proof {
            assert(decode(page@)[i as int].pgid == child);
            assert(kids[i as int] == base.forest[child]);
            assert(base.old.contains(child));
            assert(decreases_to!(kids => kids[i as int]));
            let next = kids.take(i + 1);
            assert(next.drop_last() =~= kids.take(i as int));
            assert(next.last() == kids[i as int]);
            lemma_steps_add(cat_contents(kids.take(i as int)), contents(kids[i as int]), names, sequence);
        }
        let ghost before = steps_view(out@);
        walk_tree(pages, child, path, sequence, out, Ghost(base));
        assert(steps_view(out@) =~= out0 + steps_of(cat_contents(kids.take(i + 1)), names, sequence));
        i = i + 1;
    }
    assert(kids.take(i as int) =~= kids);
}

/// The same of the elements of a leaf page.
fn walk_items(
    pages: &Pages,
    page: &[u8],
    path: &Vec<Vec<u8>>,
    sequence: u64,
    out: &mut Vec<Step>,
    Ghost(p): Ghost<Pgid>,
    Ghost(base): Ghost<Base>,
)
    requires
        base.ok(),
        pages.backs(base),
        forall|q: Pgid| #[trigger] base.forest.contains_key(q) ==> base.old.contains(q),
        base.old.contains(p),
        page@ == base.store[p],
        base.forest[p] is Leaf,
    ensures
        steps_view(final(out)@) == steps_view(old(out)@) + steps_of(
            contents(base.forest[p]),
            names_of(path@),
            sequence,
        ),
    decreases base.forest[p]->subs, 1nat,
{
    let ghost t = base.forest[p];
    let ghost items = t->items;
    let ghost subs = t->subs;
    let ghost held = contents(t);
    let ghost out0 = steps_view(out@);
    let ghost names = names_of(path@);
    assert(base.page_ok(p));
    let count: usize = PageHeader::read(page).count as usize;
    let mut i: usize = 0;
    assert(held.take(0) =~= Seq::<(Key, Item)>::empty());
    assert(out0 + steps_of(held.take(0), names, sequence) =~= out0);
    while i < count
        invariant
            i <= count,
            count == subs.len(),
            count == items.len(),
            t == base.forest[p],
            subs == t->subs,
            items == t->items,
            held == contents(t),
            held.len() == count,
            t is Leaf,
            base.ok(),
            pages.backs(base),
            forall|q: Pgid| #[trigger] base.forest.contains_key(q) ==> base.old.contains(q),
            base.page_ok(p),
            page@ == base.store[p],
            count == header_of(page@).count,
            decodable(page@),
            names == names_of(path@),
            steps_view(out@) == out0 + steps_of(held.take(i as int), names, sequence),
        decreases count - i,
    {
        assert(elem_ok(page@, i as int));
        let (flags, key, value) = leaf_at(page, i);
        let ghost item = items[i as int];
        proof {
            assert(decode(page@)[i as int] == item);
            assert(base.item_ok(item));
            assert(subs[i as int] == base.sub(item));
            assert(held[i as int] == entry(item, subs[i as int]));
            lemma_steps_next(held, i as int, names, sequence);
            assert(decreases_to!(subs => subs[i as int]));
        }
        if flags & BUCKET_LEAF_FLAG != 0 {
            walk_bucket(pages, key, value, path, out, Ghost(item), Ghost(base));
        } else {
            add_step(out, path, key, Some(value), sequence);
        }
        assert(steps_view(out@) =~= out0 + steps_of(held.take(i + 1), names, sequence));
        i = i + 1;
    }
    assert(held.take(i as int) =~= held);
}

/// Adds the steps that copy a nested bucket.
fn walk_bucket(
    pages: &Pages,
    key: &[u8],
    value: &[u8],
    path: &Vec<Vec<u8>>,
    out: &mut Vec<Step>,
    Ghost(item): Ghost<InodeV>,
    Ghost(base): Ghost<Base>,
)
    requires
        base.ok(),
        pages.backs(base),
        forall|q: Pgid| #[trigger] base.forest.contains_key(q) ==> base.old.contains(q),
        is_bucket(item),
        base.item_ok(item),
        key@ == item.key,
        value@ == item.value,
    ensures
        forall|sequence: u64|
            steps_view(final(out)@) == steps_view(old(out)@) + #[trigger] entry_steps(
                entry(item, base.sub(item)),
                names_of(path@),
                sequence,
            ),
    decreases base.sub(item), 1nat,
{
    let ghost out0 = steps_view(out@);
    let header: InBucket = InBucket::read(value);
    let own: u64 = header.sequence;
    assert(own == sequence_of(item));
    assert(header.root == root_of(item));
    add_step(out, path, key, None, own);
    let mut below: Vec<Vec<u8>> = copy_path(path);
    let ghost b0 = below@;
    below.push(slice_to_vec(key));
    assert(names_of(below@) =~= names_of(path@).push(key@)) by {
        assert forall|i: int| 0 <= i < b0.len() implies (#[trigger] below@[i])@ == names_of(path@)[i] by {
            assert(names_of(b0)[i] == names_of(path@)[i]);
        }
    }
    let ghost names = names_of(below@);
    let ghost first = steps_view(out@);
    if header.root == 0 {
        let page: &[u8] = vstd::slice::slice_subrange(value, 16, value.len());
        assert(page@ =~= inline_page(value@));
        walk_inline(page, &below, own, out);
        assert forall|sequence: u64| steps_view(out@) == out0 + #[trigger] entry_steps(
            entry(item, base.sub(item)),
            names_of(path@),
            sequence,
        ) by {
            assert(steps_view(out@) =~= out0 + entry_steps(entry(item, base.sub(item)), names_of(path@), sequence));
        }
    } else {
        let ghost t = base.forest[header.root];
        assert(base.sub(item) == Some(t));
        assert(decreases_to!(base.sub(item) => base.sub(item)->0));
        walk_tree(pages, header.root, &below, own, out, Ghost(base));
        assert forall|sequence: u64| steps_view(out@) == out0 + #[trigger] entry_steps(
            entry(item, base.sub(item)),
            names_of(path@),
            sequence,
        ) by {
            assert(steps_view(out@) =~= out0 + entry_steps(entry(item, base.sub(item)), names_of(path@), sequence));
        }
    }
}

/// Adds the steps that copy the page of an inline bucket.
fn walk_inline(page: &[u8], path: &Vec<Vec<u8>>, sequence: u64, out: &mut Vec<Step>)
    requires
        inline_ok(page@),
    ensures
        steps_view(final(out)@) == steps_view(old(out)@) + steps_of(
            inline_contents(page@),
            names_of(path@),
            sequence,
        ),
{
    let ghost held = inline_contents(page@);
    let ghost out0 = steps_view(out@);
    let ghost names = names_of(path@);
    let count: usize = PageHeader::read(page).count as usize;
    let mut i: usize = 0;
    assert(held.take(0) =~= Seq::<(Key, Item)>::empty());
    assert(out0 + steps_of(held.take(0), names, sequence) =~= out0);
    while i < count
        invariant
            i <= count,
            inline_ok(page@),
            held == inline_contents(page@),
            held.len() == count,
            count == header_of(page@).count,
            names == names_of(path@),
            steps_view(out@) == out0 + steps_of(held.take(i as int), names, sequence),
        decreases count - i,
    {
        assert(elem_ok(page@, i as int));
        let (_flags, key, value) = leaf_at(page, i);
        proof {
            let item = decode(page@)[i as int];
            assert(held[i as int] == (item.key, Item::Value { bytes: item.value }));
            lemma_steps_next(held, i as int, names, sequence);
        }
        add_step(out, path, key, Some(value), sequence);
        assert(steps_view(out@) =~= out0 + steps_of(held.take(i + 1), names, sequence));
        i = i + 1;
    }
    assert(held.take(i as int) =~= held);
}

/// The steps that copy a whole database.
pub fn walk(pages: &Pages, meta: &Meta) -> (steps: Vec<Step>)
    requires
        exists|base: Base| #[trigger] stored(*pages, *meta, base),
    ensures
        forall|base: Base| #[trigger]
            stored(*pages, *meta, base) ==> steps_view(steps@) == steps_of(
                contents(base.forest[meta.root.root]),
                Seq::empty(),
                meta.root.sequence,
            ),
{
    let ghost base = choose|base: Base| #[trigger] stored(*pages, *meta, base);
    let mut steps: Vec<Step> = Vec::new();
    let path: Vec<Vec<u8>> = Vec::new();
    assert(names_of(path@) =~= Seq::<Key>::empty());
    walk_tree(pages, meta.root.root, &path, meta.root.sequence, &mut steps, Ghost(base));
    proof {
        assert(steps_view(steps@) =~= steps_of(
            contents(base.forest[meta.root.root]),
            Seq::empty(),
            meta.root.sequence,
        ));
        assert forall|other: Base| #[trigger] stored(*pages, *meta, other) implies steps_view(steps@) == steps_of(
            contents(other.forest[meta.root.root]),
            Seq::empty(),
            meta.root.sequence,
        ) by {
            lemma_same_contents(*pages, *meta, base, other);
        }
    }
    steps
}

/// What a step adds to the size of a transaction.
pub open spec fn step_size(step: StepV) -> int {
    step.key.len() + (match step.value {
        Some(v) => v.len() as int,
        None => 0,
    })
}

/// Whether a step begins a new transaction, and the size of the transaction with the step: where
/// there is a limit a transaction is ended before it would grow beyond it.
pub open spec fn weighed(tx_max_size: int, size: int, step: StepV) -> (bool, int) {
    if tx_max_size != 0 && size + step_size(step) > tx_max_size {
        (true, step_size(step))
    } else {
        (false, size + step_size(step))
    }
}

/// The same.
pub fn weigh(tx_max_size: i64, size: i64, step: &Step) -> (r: (bool, i64))
    requires
        size >= 0,
        size + step_size(step@) <= i64::MAX,
    ensures
        r.0 == weighed(tx_max_size as int, size as int, step@).0,
        r.1 == weighed(tx_max_size as int, size as int, step@).1,
{
    let n: i64 = match &step.value {
        Some(v) => step.key.len() as i64 + v.len() as i64,
        None => step.key.len() as i64,
    };
    if tx_max_size != 0 && size + n > tx_max_size {
        (true, n)
    } else {
        (false, size + n)
    }
}

/// Where transactions end within the first `k` steps, and the size of the last one by then.
pub open spec fn cut_up(steps: Seq<StepV>, tx_max_size: int, k: int) -> (Seq<int>, int)
    decreases k,
{
    if k <= 0 {
        (Seq::empty(), 0)
    } else {
        let (ends, size) = cut_up(steps, tx_max_size, k - 1);
        let (anew, next) = weighed(tx_max_size, size, steps[k - 1]);
        (if anew { ends.push(k - 1) } else { ends }, next)
    }
}

/// Where each transaction of a copy ends, the last one behind all steps.
pub open spec fn cuts(steps: Seq<StepV>, tx_max_size: int) -> Seq<int> {
    cut_up(steps, tx_max_size, steps.len() as int).0.push(steps.len() as int)
}

/// What some steps add up to.
pub open spec fn total_size(steps: Seq<StepV>) -> int
    decreases steps.len(),
{
    if steps.len() == 0 {
        0
    } else {
        total_size(steps.drop_last()) + step_size(steps.last())
    }
}

proof fn lemma_cut_size(steps: Seq<StepV>, tx_max_size: int, k: int)
    requires
        0 <= k <= steps.len(),
    ensures
        0 <= cut_up(steps, tx_max_size, k).1 <= total_size(steps.take(k)) <= total_size(steps),
    decreases k,
{
    if k > 0 {
        lemma_cut_size(steps, tx_max_size, k - 1);
        assert(steps.take(k).drop_last() =~= steps.take(k - 1));
        assert(steps.take(k).last() == steps[k - 1]);
    }
    lemma_first_size(steps, k);
}

proof fn lemma_first_size(steps: Seq<StepV>, k: int)
    requires
        0 <= k <= steps.len(),
    ensures
        0 <= total_size(steps.take(k)) <= total_size(steps),
    decreases steps.len(),
{
    if k == steps.len() {
        assert(steps.take(k) =~= steps);
        if k > 0 {
            assert(steps.drop_last().take(k - 1) =~= steps.drop_last());
            lemma_first_size(steps.drop_last(), k - 1);
        }
    } else {
        lemma_first_size(steps.drop_last(), k);
        assert(steps.drop_last().take(k) =~= steps.take(k));
    }
}

/// The places as numbers.
pub open spec fn places(v: Seq<usize>) -> Seq<int> {
    Seq::new(v.len(), |i: int| v[i] as int)
}

/// Says where each transaction of a copy ends.
pub fn cut(steps: &Vec<Step>, tx_max_size: i64) -> (ends: Vec<usize>)
    requires
        total_size(steps_view(steps@)) <= i64::MAX,
    ensures
        places(ends@) == cuts(steps_view(steps@), tx_max_size as int),
{
    let ghost v = steps_view(steps@);
    let ghost most = tx_max_size as int;
    let mut ends: Vec<usize> = Vec::new();
    let mut size: i64 = 0;
    let mut i: usize = 0;
    assert(places(ends@) =~= Seq::<int>::empty());
    while i < steps.len()
        invariant
            i <= steps@.len(),
            v == steps_view(steps@),
            most == tx_max_size,
            total_size(v) <= i64::MAX,
            places(ends@) == cut_up(v, most, i as int).0,
            size == cut_up(v, most, i as int).1,
        decreases steps@.len() - i,
    {
        let ghost before = ends@;
        proof {
            lemma_cut_size(v, most, i as int);
            lemma_first_size(v, i + 1);
            assert(v.take(i + 1).drop_last() =~= v.take(i as int));
            assert(v.take(i + 1).last() == v[i as int]);
            assert(v[i as int] == steps@[i as int]@);
        }
        let (anew, next) = weigh(tx_max_size, size, &steps[i]);
        if anew {
            ends.push(i);
            assert(places(ends@) =~= places(before).push(i as int));
        }
        size = next;
        i = i + 1;
    }
    let ghost before = ends@;
    ends.push(steps.len());
    assert(places(ends@) =~= places(before).push(steps@.len() as int));
    ends
}

// ---------------------------------------------------------------------------------------------
// Carrying out a step.

/// A path that leads nowhere leads nowhere however it goes on.
proof fn lemma_nowhere(held: Seq<(Key, Item)>, path: Seq<Key>, k: int)
    requires
        0 <= k <= path.len(),
        held_at(held, path.take(k)) is None,
    ensures
        held_at(held, path) is None,
    decreases path.len() - k,
{
    if k == path.len() {
        assert(path.take(k) =~= path);
    } else {
        assert(path.take(k + 1).drop_last() =~= path.take(k));
        lemma_nowhere(held, path, k + 1);
    }
}

/// The path of a bucket that was opened ends with its name.
proof fn lemma_opened_way(before: TxInner, after: TxInner, b: int, name: Key, c: usize)
    requires
        before.good(),
        after.good(),
        before.has(b),
        before.opened_in(&after, b, name, c),
    ensures
        way_to(after.buckets@, c as int) == way_to(before.buckets@, b).push(name),
{
    let bs = before.buckets@;
    let cs = after.buckets@;
    assert forall|d: int| 0 <= d < bs.len() implies (#[trigger] cs[d]).parent == bs[d].parent && cs[d].name@ == bs[d].name@ by {
        if d != b && sub_id(bs[b].subbuckets@, name) is None {
            assert(cs[d] == bs[d]);
        }
    }
    lemma_same_way(bs, cs, b);
    assert(after.has(b));
    let j = lemma_sub_id(cs[b].subbuckets@, name);
    assert(subs_linked(cs, after.base@, b));
    assert(cs[b].subbuckets@[j].0@ == name && cs[b].subbuckets@[j].1 == c);
}

/// Opens the bucket that a path of names leads to.
pub fn find_path(tx: &mut TxInner, path: &Vec<Vec<u8>>) -> (r: Result<BucketId>)
    requires
        old(tx).good(),
        old(tx).has(0),
    ensures
        final(tx).good(),
        forall|list: FreelistV| #[trigger] old(tx).sound(list) ==> final(tx).sound(list),
        forall|list: FreelistV| #[trigger] old(tx).full(list) ==> final(tx).full(list),
        *final(tx) == (TxInner { buckets: final(tx).buckets, ..*old(tx) }),
        forall|d: int| #[trigger]
            old(tx).has(d) ==> final(tx).has(d) && open_contents(final(tx).buckets@, final(tx).base@, d) == open_contents(
                old(tx).buckets@,
                old(tx).base@,
                d,
            ) && final(tx).items(d) == old(tx).items(d),
        match held_at(open_contents(old(tx).buckets@, old(tx).base@, 0), names_of(path@)) {
            Some(h) => if path@.len() == 0 || old(tx).shut() is None {
                r matches Ok(b) && final(tx).has(b as int) && open_contents(
                    final(tx).buckets@,
                    final(tx).base@,
                    b as int,
                ) == h && way_to(final(tx).buckets@, b as int) == names_of(path@) && (path@.len() == 0 ==> b == 0)
            } else {
                r == Err::<BucketId, Error>(Error::BucketNotFound)
            },
            None => r == Err::<BucketId, Error>(Error::BucketNotFound),
        },
{
    let ghost tx0 = *tx;
    let ghost names = names_of(path@);
    let ghost held = open_contents(tx.buckets@, tx.base@, 0);
    let mut b: BucketId = 0;
    let mut i: usize = 0;
    assert(names.take(0) =~= Seq::<Key>::empty());
    while i < path.len()
        invariant
            i <= path@.len(),
            tx0 == *old(tx),
            names == names_of(path@),
            held == open_contents(tx0.buckets@, tx0.base@, 0),
            tx.good(),
            tx.has(b as int),
            forall|list: FreelistV| #[trigger] tx0.sound(list) ==> tx.sound(list),
            forall|list: FreelistV| #[trigger] tx0.full(list) ==> tx.full(list),
            *tx == (TxInner { buckets: tx.buckets, ..tx0 }),
            forall|d: int| #[trigger]
                tx0.has(d) ==> tx.has(d) && open_contents(tx.buckets@, tx.base@, d) == open_contents(
                    tx0.buckets@,
                    tx0.base@,
                    d,
                ) && tx.items(d) == tx0.items(d),
            held_at(held, names.take(i as int)) == Some(open_contents(tx.buckets@, tx.base@, b as int)),
            way_to(tx.buckets@, b as int) == names.take(i as int),
            i == 0 ==> b == 0,
            i > 0 ==> tx0.shut() is None,
        decreases path@.len() - i,
    {
        let ghost before = *tx;
        let name: &[u8] = path[i].as_slice();
        proof {
            lemma_reads_contents(before, b as int, name@);
            assert(names.take(i + 1).drop_last() =~= names.take(i as int));
            assert(names.take(i + 1).last() == name@);
        }
        let next: BucketId = match tx.bucket_by_name(b, name) {
            Ok(found) => match found {
                Some(c) => c,
                None => {
                    proof {
                        lemma_nowhere(held, names, i + 1);
                    }
                    return Err(Error::BucketNotFound);
                },
            },
            Err(_) => {
                return Err(Error::BucketNotFound);
            },
        };
        proof {
            lemma_open_contents(before, *tx, b as int, name@, next);
            lemma_opened_way(before, *tx, b as int, name@, next);
            assert(names.take(i + 1) =~= names.take(i as int).push(name@));
            assert forall|d: int| #[trigger] tx0.has(d) implies tx.has(d) && open_contents(tx.buckets@, tx.base@, d)
                == open_contents(tx0.buckets@, tx0.base@, d) && tx.items(d) == tx0.items(d) by {
                assert(before.has(d));
                assert(open_contents(tx.buckets@, tx.base@, d) == open_contents(before.buckets@, before.base@, d));
            }
        }
        b = next;
        i = i + 1;
    }
    assert(names.take(i as int) =~= names);
    Ok(b)
}

/// Every bucket has the elements that it had.
pub open spec fn same_items(before: TxInner, after: TxInner) -> bool {
    forall|d: int| #[trigger] before.has(d) ==> after.has(d) && after.items(d) == before.items(d)
}

/// Why a step cannot be carried out.
pub open spec fn step_refused(tx: TxInner, b: int, step: StepV) -> Option<Error> {
    match step.value {
        Some(v) => if step.path.len() == 0 {
            Some(Error::BucketNotFound)
        } else {
            tx.put_refused(b, step.key, v)
        },
        None => tx.create_refused(b, step.key),
    }
}

/// The same of a step in a bucket that holds `h`.
pub open spec fn copy_refused(tx: TxInner, h: Seq<(Key, Item)>, step: StepV) -> Option<Error> {
    if step.path.len() > 0 && tx.shut() is Some {
        Some(Error::BucketNotFound)
    } else {
        match step.value {
            Some(v) => if step.path.len() == 0 {
                Some(Error::BucketNotFound)
            } else if tx.fixed() is Some {
                tx.fixed()
            } else if step.key.len() == 0 {
                Some(Error::KeyRequired)
            } else if step.key.len() > MAX_KEY_SIZE {
                Some(Error::KeyTooLarge)
            } else if v.len() > MAX_VALUE_SIZE {
                Some(Error::ValueTooLarge)
            } else if bucket_in(h, step.key) is Some {
                Some(Error::IncompatibleValue)
            } else {
                None
            },
            None => if tx.fixed() is Some {
                tx.fixed()
            } else if step.key.len() == 0 {
                Some(Error::BucketNameRequired)
            } else if step.key.len() > MAX_KEY_SIZE {
                Some(Error::KeyTooLarge)
            } else if bucket_in(h, step.key) is Some {
                Some(Error::BucketExists)
            } else if value_in(h, step.key) is Some {
                Some(Error::IncompatibleValue)
            } else {
                None
            },
        }
    }
}

/// A key stands for a value or for a bucket.
proof fn lemma_at_key(tx: TxInner, b: int, key: Key)
    requires
        tx.good(),
        tx.has(b),
    ensures
        at_key(tx.items(b), key) is Some <==> bucket_at(tx.items(b), key) || value_at(tx.items(b), key) is Some,
{
}

/// The place of a key among the elements is that among what they stand for.
proof fn lemma_place(held: Seq<(Key, Item)>, s: Seq<InodeV>, key: Key)
    requires
        held.len() == s.len(),
        forall|i: int| 0 <= i < s.len() ==> (#[trigger] held[i]).0 == s[i].key,
    ensures
        place(held, key) == pos(s, key),
    decreases s.len(),
{
    if s.len() > 0 {
        assert(held[s.len() - 1].0 == s.last().key);
        assert forall|i: int| 0 <= i < s.len() - 1 implies (#[trigger] held.drop_last()[i]).0 == s.drop_last()[i].key by {
            assert(held[i].0 == s[i].key);
        }
        lemma_place(held.drop_last(), s.drop_last(), key);
    }
}

/// How full pages are made has no part in what a bucket holds.
proof fn lemma_fill_contents(before: TxInner, after: TxInner, b: int)
    requires
        before.good(),
        before.has(b),
        only_in(before, after, b),
        after.items(b) == before.items(b),
        after.buckets@[b].subbuckets == before.buckets@[b].subbuckets,
    ensures
        open_contents(after.buckets@, after.base@, b) == open_contents(before.buckets@, before.base@, b),
{
    let bs = before.buckets@;
    let cs = after.buckets@;
    let base = before.base@;
    let s = before.items(b);
    assert forall|i: int| 0 <= i < s.len() implies open_entry(cs, base, b, s[i]) == open_entry(bs, base, b, s[i]) by {
        lemma_sub_entry(before, after, b, s[i]);
    }
    assert(open_contents(cs, base, b) =~= open_contents(bs, base, b));
}

/// The entries of a bucket have the keys of its elements.
proof fn lemma_entry_keys(tx: TxInner, b: int)
    requires
        tx.good(),
        tx.has(b),
    ensures
        forall|i: int| 0 <= i < tx.items(b).len() ==> (#[trigger] open_contents(tx.buckets@, tx.base@, b)[i]).0 == tx.items(b)[i].key,
{
    let held = open_contents(tx.buckets@, tx.base@, b);
    assert forall|i: int| 0 <= i < tx.items(b).len() implies (#[trigger] held[i]).0 == tx.items(b)[i].key by {
        assert(held[i] == open_entry(tx.buckets@, tx.base@, b, tx.items(b)[i]));
    }
}

/// A value that was put is where its key belongs.
proof fn lemma_placed(tx0: TxInner, tx1: TxInner, tx2: TxInner, b: int, key: Key, value: Seq<u8>)
    requires
        tx0.good(),
        tx1.good(),
        tx2.good(),
        tx0.has(b),
        tx1.has(b),
        only_in(tx0, tx1, b),
        tx1.items(b) == tx0.items(b),
        tx1.buckets@[b].subbuckets == tx0.buckets@[b].subbuckets,
        !bucket_at(tx1.items(b), key),
        tx2.same_but(&tx1, b),
        tx2.buckets@[b].same_but_root(tx1.buckets@[b]),
        tx2.items(b) == with_item(tx1.items(b), value_item(key, value)),
    ensures
        only_in(tx0, tx2, b),
        open_contents(tx2.buckets@, tx2.base@, b) == with_entry(
            open_contents(tx0.buckets@, tx0.base@, b),
            (key, Item::Value { bytes: value }),
        ),
{
    let held = open_contents(tx0.buckets@, tx0.base@, b);
    lemma_fill_contents(tx0, tx1, b);
    lemma_put_contents(tx1, tx2, b, key, value);
    lemma_entry_keys(tx0, b);
    lemma_place(held, tx0.items(b), key);
    tx0.buckets@[b].lemma_items(tx0.base@, true);
    lemma_pos(tx0.items(b), key);
}

/// A bucket that was created is where its name belongs.
proof fn lemma_added(tx0: TxInner, tx1: TxInner, tx2: TxInner, tx3: TxInner, b: int, key: Key, c: BucketId, sequence: u64)
    requires
        tx0.good(),
        tx1.good(),
        tx2.good(),
        tx3.good(),
        tx0.has(b),
        tx1.has(b),
        only_in(tx0, tx1, b),
        tx1.buckets@.len() == tx0.buckets@.len(),
        tx1.items(b) == tx0.items(b),
        tx1.buckets@[b].subbuckets == tx0.buckets@[b].subbuckets,
        at_key(tx1.items(b), key) is None,
        tx1.created(&tx2, b, key, c),
        tx2.numbered(&tx3, c as int, sequence),
    ensures
        only_in(tx0, tx3, b),
        open_contents(tx3.buckets@, tx3.base@, b) == with_entry(
            open_contents(tx0.buckets@, tx0.base@, b),
            (key, Item::Bucket { sequence, items: Seq::empty() }),
        ),
{
    let bs = tx0.buckets@;
    let cs = tx3.buckets@;
    let base = tx0.base@;
    let s = tx0.items(b);
    let t = tx3.items(b);
    let q = pos(s, key);
    let held = open_contents(bs, base, b);
    let item = at_key(tx2.items(b), key)->0;
    assert(cs[b] == tx2.buckets@[b]);
    assert forall|d: int| 0 <= d < bs.len() && d != b implies kept(#[trigger] cs[d], bs[d]) by {
        assert(cs[d] == tx2.buckets@[d]);
        assert(tx2.buckets@[d] == tx1.buckets@[d]);
        assert(kept(tx1.buckets@[d], bs[d]));
    }
    assert(only_in(tx0, tx3, b));
    lemma_entry_keys(tx0, b);
    lemma_place(held, s, key);
    bs[b].lemma_items(base, true);
    lemma_pos(s, key);
    assert(!has_key(s, key));
    assert(t == s.insert(q, item));
    assert(cs[b].subbuckets@.drop_last() == bs[b].subbuckets@);
    let new = (key, Item::Bucket { sequence, items: Seq::<(Key, Item)>::empty() });
    assert(open_contents(cs, base, c as int) =~= Seq::<(Key, Item)>::empty());
    assert(open_entry(cs, base, b, item) == new);
    let x = open_contents(cs, base, b);
    let y = held.insert(q, new);
    assert forall|i: int| 0 <= i < x.len() implies x[i] == y[i] by {
        assert(x[i] == open_entry(cs, base, b, t[i]));
        if i != q {
            let j = if i < q { i } else { i - 1 };
            assert(t[i] == s[j]);
            assert(s[j].key != key);
            lemma_sub_entry(tx0, tx3, b, s[j]);
            assert(held[j] == open_entry(bs, base, b, s[j]));
        }
    }
    assert(x =~= y);
}

/// Carries out a step in bucket `b`, which its path leads to. Pages of copied buckets are made full.
/// There are no values beside the buckets at the top.
pub fn apply(tx: &mut TxInner, b: BucketId, step: &Step) -> (r: Result<()>)
    requires
        old(tx).good(),
        old(tx).has(b as int),
    ensures
        final(tx).good(),
        forall|list: FreelistV| #[trigger] old(tx).sound(list) ==> final(tx).sound(list),
        forall|list: FreelistV| #[trigger] old(tx).full(list) ==> final(tx).full(list),
        *final(tx) == (TxInner { buckets: final(tx).buckets, ..*old(tx) }),
        step.path@.len() > 0 ==> final(tx).buckets@[b as int].split_at == old(tx).pages.page_size
            && final(tx).buckets@[b as int].merge_at == old(tx).pages.page_size / 2,
        match step_refused(*old(tx), b as int, step@) {
            Some(e) => r == Err::<(), Error>(e) && same_items(*old(tx), *final(tx)),
            None => {
                &&& r is Ok
                &&& forall|d: int| #[trigger]
                    old(tx).has(d) && d != b ==> final(tx).items(d) == old(tx).items(d)
                &&& only_in(*old(tx), *final(tx), b as int)
                &&& open_contents(final(tx).buckets@, final(tx).base@, b as int) == with_entry(
                    open_contents(old(tx).buckets@, old(tx).base@, b as int),
                    (step.key@, item_of(step@)),
                )
                &&& match step@.value {
                    Some(v) => final(tx).items(b as int) == with_item(
                        old(tx).items(b as int),
                        value_item(step.key@, v),
                    ),
                    None => {
                        let c = sub_id(final(tx).buckets@[b as int].subbuckets@, step.key@);
                        &&& c is Some
                        &&& final(tx).has(c->0 as int)
                        &&& final(tx).items(c->0 as int).len() == 0
                        &&& final(tx).buckets@[c->0 as int].header.sequence == step.sequence
                        &&& bucket_at(final(tx).items(b as int), step.key@)
                        &&& final(tx).items(b as int) == with_item(
                            old(tx).items(b as int),
                            at_key(final(tx).items(b as int), step.key@)->0,
                        )
                    },
                }
            },
        },
{
    let ghost tx0 = *tx;
    if step.path.len() > 0 {
        let ps: usize = tx.pages.page_size;
        tx.set_fill(b, ps, ps / 2);
    }
    let ghost tx1 = *tx;
    assert forall|d: int| #[trigger] tx0.has(d) implies tx1.has(d) && tx1.items(d) == tx0.items(d) by {
        assert(tx1.buckets@[d].tree(tx0.base@) == tx0.buckets@[d].tree(tx0.base@));
    }
    assert(only_in(tx0, tx1, b as int)) by {
        reveal(kept);
    }
    match &step.value {
        Some(v) => {
            if step.path.len() == 0 {
                return Err(Error::BucketNotFound);
            }
            let r: Result<()> = tx.put(b, step.key.as_slice(), v.as_slice());
            proof {
                if r is Ok {
                    lemma_placed(tx0, tx1, *tx, b as int, step.key@, v@);
                }
            }
            r
        },
        None => {
            let c: BucketId = match tx.create_bucket(b, step.key.as_slice()) {
                Ok(c) => c,
                Err(e) => {
                    return Err(e);
                },
            };
            let ghost tx2 = *tx;
            proof {
                assert(tx2.has(c as int));
                tx1.buckets@[b as int].lemma_items(tx1.base@, true);
                let item = at_key(tx2.items(b as int), step.key@)->0;
                lemma_with_item(tx1.items(b as int), item);
                assert(is_bucket(item)) by {
                    assert(1u32 & 1u32 != 0) by (bit_vector);
                }
                assert(at_key(tx2.items(b as int), step.key@) == Some(item));
            }
            let r: Result<()> = tx.set_sequence(c, step.sequence);
            proof {
                if r is Ok {
                    lemma_added(tx0, tx1, tx2, *tx, b as int, step.key@, c, step.sequence);
                }
            }
            r
        },
    }
}

/// The pages of the bucket that a path leads to are to be made full.
pub open spec fn filled_up(tx: TxInner, path: Seq<Key>) -> bool {
    path.len() > 0 ==> exists|b: int| #[trigger]
        tx.has(b) && way_to(tx.buckets@, b) == path && tx.buckets@[b].split_at == tx.pages.page_size
            && tx.buckets@[b].merge_at == tx.pages.page_size / 2
}

/// Finds the bucket of a step and carries it out there.
pub fn copy_step(tx: &mut TxInner, step: &Step) -> (r: Result<()>)
    requires
        old(tx).good(),
        old(tx).has(0),
    ensures
        final(tx).good(),
        final(tx).has(0),
        *final(tx) == (TxInner { buckets: final(tx).buckets, ..*old(tx) }),
        forall|list: FreelistV| #[trigger] old(tx).sound(list) ==> final(tx).sound(list),
        forall|list: FreelistV| #[trigger] old(tx).full(list) ==> final(tx).full(list),
        ({
            let held = open_contents(old(tx).buckets@, old(tx).base@, 0);
            match held_at(held, step@.path) {
                None => r == Err::<(), Error>(Error::BucketNotFound) && same_items(*old(tx), *final(tx)),
                Some(h) => match copy_refused(*old(tx), h, step@) {
                    Some(e) => r == Err::<(), Error>(e) && same_items(*old(tx), *final(tx)),
                    None => {
                        &&& r is Ok
                        &&& open_contents(final(tx).buckets@, final(tx).base@, 0) == stepped(held, step@)
                        &&& filled_up(*final(tx), step@.path)
                    },
                },
            }
        }),
{
    let ghost tx0 = *tx;
    let b: BucketId = match find_path(tx, &step.path) {
        Ok(b) => b,
        Err(e) => {
            return Err(e);
        },
    };
    let ghost tx1 = *tx;
    let r: Result<()> = apply(tx, b, step);
    proof {
        lemma_reads_contents(tx1, b as int, step.key@);
        lemma_at_key(tx1, b as int, step.key@);
        if r is Ok {
            lemma_ripple(tx1, *tx, b as int);
            assert forall|d: int| 0 <= d < tx1.buckets@.len() implies (#[trigger] tx.buckets@[d]).parent
                == tx1.buckets@[d].parent && tx.buckets@[d].name@ == tx1.buckets@[d].name@ by {
                if d != b {
                    lemma_kept(tx.buckets@[d], tx1.buckets@[d], tx1.base@);
                }
            }
            lemma_same_way(tx1.buckets@, tx.buckets@, b as int);
            assert(tx.has(b as int));
        }
    }
    r
}

/// What the root bucket holds after the steps from `from` on, `k` of them, were carried out.
pub open spec fn after_steps(held: Seq<(Key, Item)>, steps: Seq<StepV>, from: int, k: int) -> Seq<(Key, Item)> {
    replayed(held, steps.subrange(from, from + k))
}

/// Step `k` after `from` cannot be carried out when its turn comes.
pub open spec fn refused_after(tx: TxInner, held: Seq<(Key, Item)>, steps: Seq<StepV>, from: int, k: int) -> Option<Error> {
    match held_at(after_steps(held, steps, from, k), steps[from + k].path) {
        None => Some(Error::BucketNotFound),
        Some(h) => copy_refused(tx, h, steps[from + k]),
    }
}

/// Carries out the steps from `from` up to, but not with, `to`, one after the other, as long as they
/// can be.
pub fn copy_steps(tx: &mut TxInner, steps: &Vec<Step>, from: usize, to: usize) -> (r: Result<()>)
    requires
        old(tx).good(),
        old(tx).has(0),
        from <= to <= steps@.len(),
    ensures
        final(tx).good(),
        final(tx).has(0),
        *final(tx) == (TxInner { buckets: final(tx).buckets, ..*old(tx) }),
        forall|list: FreelistV| #[trigger] old(tx).sound(list) ==> final(tx).sound(list),
        forall|list: FreelistV| #[trigger] old(tx).full(list) ==> final(tx).full(list),
        ({
            let held = open_contents(old(tx).buckets@, old(tx).base@, 0);
            let v = steps_view(steps@);
            match r {
                Ok(_) => {
                    &&& forall|k: int|
                        0 <= k < to - from ==> #[trigger] refused_after(*old(tx), held, v, from as int, k) is None
                    &&& open_contents(final(tx).buckets@, final(tx).base@, 0) == replayed(
                        held,
                        v.subrange(from as int, to as int),
                    )
                },
                Err(e) => exists|k: int|
                    0 <= k < to - from && #[trigger] refused_after(*old(tx), held, v, from as int, k) == Some(e)
                        && forall|j: int|
                        0 <= j < k ==> #[trigger] refused_after(*old(tx), held, v, from as int, j) is None,
            }
        }),
{
    let ghost tx0 = *tx;
    let ghost held = open_contents(tx.buckets@, tx.base@, 0);
    let ghost v = steps_view(steps@);
    let ghost first = from as int;
    let mut i: usize = from;
    assert(v.subrange(first, first) =~= Seq::<StepV>::empty());
    while i < to
        invariant
            from <= i <= to <= steps@.len(),
            first == from,
            v == steps_view(steps@),
            tx0 == *old(tx),
            held == open_contents(tx0.buckets@, tx0.base@, 0),
            *tx == (TxInner { buckets: tx.buckets, ..tx0 }),
            tx.good(),
            tx.has(0),
            forall|list: FreelistV| #[trigger] tx0.sound(list) ==> tx.sound(list),
            forall|list: FreelistV| #[trigger] tx0.full(list) ==> tx.full(list),
            open_contents(tx.buckets@, tx.base@, 0) == after_steps(held, v, first, i - first),
            forall|k: int| 0 <= k < i - first ==> #[trigger] refused_after(tx0, held, v, first, k) is None,
        decreases to - i,
    {
        let ghost tx1 = *tx;
        let ghost k = i - first;
        proof {
            assert(v[first + k] == steps@[i as int]@);
            assert(v.subrange(first, first + k + 1).drop_last() =~= v.subrange(first, first + k));
            assert(v.subrange(first, first + k + 1).last() == v[first + k]);
            lemma_same_refusal(tx0, tx1, held, v, first, k);
        }
        match copy_step(tx, &steps[i]) {
            Ok(_) => {},
            Err(e) => {
                assert(refused_after(tx0, held, v, first, k) == Some(e));
                return Err(e);
            },
        }
        assert(refused_after(tx0, held, v, first, k) is None);
        i = i + 1;
    }
    Ok(())
}

/// Whether a step is refused does not depend on the open buckets but on what they hold.
proof fn lemma_same_refusal(a: TxInner, b: TxInner, held: Seq<(Key, Item)>, steps: Seq<StepV>, from: int, k: int)
    requires
        b == (TxInner { buckets: b.buckets, ..a }),
    ensures
        refused_after(a, held, steps, from, k) == refused_after(b, held, steps, from, k),
{
}

} // verus!
