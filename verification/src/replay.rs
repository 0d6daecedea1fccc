//! A copy that is made step by step holds what was copied.
use vstd::prelude::*;
use crate::compact::{entry_steps, steps_of, StepV};
use crate::contents::{cat_contents, contents, entry, inline_contents, lemma_contents, lemma_paired, Item};
use crate::inode::decode;
use crate::laws::{bucket_in, held_at, value_in};
use crate::node::{inline_ok, inline_page, inline_tree, Base, Pages};
use crate::order::{group_order, less};
use crate::page::{Meta, Pgid};
use crate::ripple::{lemma_renewed_at, lemma_renewed_twice, renewed, with_bucket};
use crate::snapshot::stored;
use crate::tree::{is_bucket, lemma_wf_items, lemma_wf_one, root_of, Key, Tree};

verus! {

/// The place of a key among what a bucket holds.
pub open spec fn place(held: Seq<(Key, Item)>, key: Key) -> int
    decreases held.len(),
{
    if held.len() == 0 {
        0
    } else if less(held.last().0, key) {
        held.len() as int
    } else {
        place(held.drop_last(), key)
    }
}

/// What a bucket holds once a key stands for something.
pub open spec fn with_entry(held: Seq<(Key, Item)>, e: (Key, Item)) -> Seq<(Key, Item)> {
    let at = place(held, e.0);
    if at < held.len() && held[at].0 == e.0 {
        held.update(at, e)
    } else {
        held.insert(at, e)
    }
}

/// What a step makes a key stand for.
pub open spec fn item_of(step: StepV) -> Item {
    match step.value {
        Some(bytes) => Item::Value { bytes },
        None => Item::Bucket { sequence: step.sequence, items: Seq::empty() },
    }
}

/// What the root bucket holds once a step was carried out.
pub open spec fn stepped(held: Seq<(Key, Item)>, step: StepV) -> Seq<(Key, Item)> {
    match held_at(held, step.path) {
        Some(h) => renewed(held, step.path, with_entry(h, (step.key, item_of(step)))),
        None => held,
    }
}

/// The same of a list of steps.
pub open spec fn replayed(held: Seq<(Key, Item)>, steps: Seq<StepV>) -> Seq<(Key, Item)>
    decreases steps.len(),
{
    if steps.len() == 0 {
        held
    } else {
        stepped(replayed(held, steps.drop_last()), steps.last())
    }
}

/// The keys are in order, and so are those in every nested bucket.
pub open spec fn tidy(held: Seq<(Key, Item)>) -> bool
    decreases held,
{
    &&& forall|i: int, j: int| 0 <= i < j < held.len() ==> less(#[trigger] held[i].0, #[trigger] held[j].0)
    &&& forall|i: int| 0 <= i < held.len() ==> tidy_item(#[trigger] held[i].1)
}

/// The same of what a key stands for.
pub open spec fn tidy_item(item: Item) -> bool
    decreases item,
{
    match item {
        Item::Value { .. } => true,
        Item::Bucket { items, .. } => tidy(items),
    }
}

/// A key behind all others goes to the end.
proof fn lemma_entry_last(held: Seq<(Key, Item)>, e: (Key, Item))
    requires
        forall|i: int| 0 <= i < held.len() ==> less(#[trigger] held[i].0, e.0),
    ensures
        with_entry(held, e) == held.push(e),
{
    if held.len() > 0 {
        assert(less(held[held.len() - 1].0, e.0));
    }
    assert(held.insert(held.len() as int, e) =~= held.push(e));
}

/// Two lists of steps one after the other.
pub proof fn lemma_replayed_add(held: Seq<(Key, Item)>, a: Seq<StepV>, b: Seq<StepV>)
    ensures
        replayed(held, a + b) == replayed(replayed(held, a), b),
    decreases b.len(),
{
    if b.len() == 0 {
        assert(a + b =~= a);
    } else {
        lemma_replayed_add(held, a, b.drop_last());
        assert((a + b).drop_last() =~= a + b.drop_last());
    }
}

/// The steps of what a bucket holds fill an empty bucket with it.
proof fn lemma_filled(held: Seq<(Key, Item)>, path: Seq<Key>, items: Seq<(Key, Item)>, sequence: u64)
    requires
        held_at(held, path) == Some(Seq::<(Key, Item)>::empty()),
        tidy(items),
    ensures
        replayed(held, steps_of(items, path, sequence)) == (if items.len() == 0 {
            held
        } else {
            renewed(held, path, items)
        }),
    decreases items,
{
    if items.len() > 0 {
        let front = items.drop_last();
        let e = items.last();
        assert forall|i: int, j: int| 0 <= i < j < front.len() implies less(
            #[trigger] front[i].0,
            #[trigger] front[j].0,
        ) by {
            assert(less(items[i].0, items[j].0));
        }
        assert forall|i: int| 0 <= i < front.len() implies tidy_item(#[trigger] front[i].1) by {
            assert(tidy_item(items[i].1));
        }
        assert(tidy(front));
        lemma_filled(held, path, front, sequence);
        let r1 = replayed(held, steps_of(front, path, sequence));
        lemma_replayed_add(held, steps_of(front, path, sequence), entry_steps(e, path, sequence));
        assert(held_at(r1, path) == Some(front) && forall|y: Seq<(Key, Item)>| #[trigger]
            renewed(r1, path, y) == renewed(held, path, y)) by {
            if front.len() == 0 {
                assert(front =~= Seq::<(Key, Item)>::empty());
            } else {
                lemma_renewed_at(held, path, front);
                assert forall|y: Seq<(Key, Item)>| #[trigger] renewed(r1, path, y) == renewed(held, path, y) by {
                    lemma_renewed_twice(held, path, front, y);
                }
            }
        }
        assert forall|i: int| 0 <= i < front.len() implies less(#[trigger] front[i].0, e.0) by {
            assert(less(items[i].0, items[items.len() - 1].0));
        }
        assert(front.push(e) =~= items);
        lemma_entry_filled(r1, path, front, e, sequence);
    }
}

/// The steps of one key add it behind the others.
proof fn lemma_entry_filled(held: Seq<(Key, Item)>, path: Seq<Key>, front: Seq<(Key, Item)>, e: (Key, Item), sequence: u64)
    requires
        held_at(held, path) == Some(front),
        forall|i: int| 0 <= i < front.len() ==> less(#[trigger] front[i].0, e.0),
        tidy_item(e.1),
    ensures
        replayed(held, entry_steps(e, path, sequence)) == renewed(held, path, front.push(e)),
    decreases e,
{
    match e.1 {
        Item::Value { bytes } => {
            let step = StepV { path, key: e.0, value: Some(bytes), sequence };
            lemma_one_step(held, step);
            lemma_entry_last(front, e);
        },
        Item::Bucket { sequence: own, items } => {
            let step = StepV { path, key: e.0, value: None, sequence: own };
            let first = (e.0, Item::Bucket { sequence: own, items: Seq::<(Key, Item)>::empty() });
            let r2 = renewed(held, path, front.push(first));
            let below = path.push(e.0);
            lemma_one_step(held, step);
            lemma_entry_last(front, first);
            lemma_replayed_add(held, seq![step], steps_of(items, below, own));
            assert(replayed(held, seq![step]) == r2);
            lemma_renewed_at(held, path, front.push(first));
            assert(below.drop_last() =~= path);
            assert(below.last() == e.0);
            lemma_last_bucket(front, first);
            assert(held_at(r2, below) == Some(Seq::<(Key, Item)>::empty()));
            assert(decreases_to!(e => e.1));
            assert(decreases_to!(e.1 => e.1->items));
            lemma_filled(r2, below, items, own);
            if items.len() == 0 {
                assert(items =~= Seq::<(Key, Item)>::empty());
            } else {
                assert(with_bucket(front.push(first), e.0, items) =~= front.push(e)) by {
                    lemma_unlike(front, e.0);
                }
                lemma_renewed_twice(held, path, front.push(first), front.push(e));
            }
        },
    }
}

proof fn lemma_one_step(held: Seq<(Key, Item)>, step: StepV)
    ensures
        replayed(held, seq![step]) == stepped(held, step),
{
    assert(seq![step].drop_last() =~= Seq::<StepV>::empty());
    assert(replayed(held, seq![step].drop_last()) == held);
}

/// A key behind all others is none of them.
proof fn lemma_unlike(front: Seq<(Key, Item)>, key: Key)
    requires
        forall|i: int| 0 <= i < front.len() ==> less(#[trigger] front[i].0, key),
    ensures
        forall|i: int| 0 <= i < front.len() ==> #[trigger] front[i].0 != key,
{
    broadcast use group_order;

}

/// A bucket behind all other keys is found.
proof fn lemma_last_bucket(front: Seq<(Key, Item)>, e: (Key, Item))
    requires
        forall|i: int| 0 <= i < front.len() ==> less(#[trigger] front[i].0, e.0),
        e.1 is Bucket,
    ensures
        bucket_in(front.push(e), e.0) == Some(e.1->items),
{
    let held = front.push(e);
    lemma_unlike(front, e.0);
    assert(held[front.len() as int] == e);
    assert forall|i: int| 0 <= i < held.len() && (#[trigger] held[i]).0 == e.0 implies i == front.len() by {
        if i < front.len() {
            assert(front[i].0 != e.0);
        }
    }
}

/// The steps that copy a database fill an empty one with all that it holds, and with nothing else.
pub proof fn lemma_copy_exact(held: Seq<(Key, Item)>, sequence: u64)
    requires
        tidy(held),
    ensures
        replayed(Seq::empty(), steps_of(held, Seq::empty(), sequence)) == held,
{
    let none = Seq::<(Key, Item)>::empty();
    lemma_filled(none, Seq::empty(), held, sequence);
    if held.len() == 0 {
        assert(held =~= none);
    }
}

// ---------------------------------------------------------------------------------------------
// Nothing is in the way of a copy.

/// The path of a step leads to a bucket, and its key is new there.
pub open spec fn goes(held: Seq<(Key, Item)>, step: StepV) -> bool {
    match held_at(held, step.path) {
        Some(h) => bucket_in(h, step.key) is None && value_in(h, step.key) is None,
        None => false,
    }
}

/// The same of a list of steps, each after the ones before it.
pub open spec fn all_go(held: Seq<(Key, Item)>, steps: Seq<StepV>) -> bool {
    forall|k: int| 0 <= k < steps.len() ==> goes(replayed(held, steps.take(k)), #[trigger] steps[k])
}

/// Two lists of steps one after the other.
proof fn lemma_go_add(held: Seq<(Key, Item)>, a: Seq<StepV>, b: Seq<StepV>)
    requires
        all_go(held, a),
        all_go(replayed(held, a), b),
    ensures
        all_go(held, a + b),
{
    let c = a + b;
    assert forall|k: int| 0 <= k < c.len() implies goes(replayed(held, c.take(k)), #[trigger] c[k]) by {
        if k < a.len() {
            assert(c.take(k) =~= a.take(k));
            assert(c[k] == a[k]);
        } else {
            let i = k - a.len();
            assert(c.take(k) =~= a + b.take(i));
            assert(c[k] == b[i]);
            lemma_replayed_add(held, a, b.take(i));
        }
    }
}

/// One step.
proof fn lemma_go_one(held: Seq<(Key, Item)>, step: StepV)
    requires
        goes(held, step),
    ensures
        all_go(held, seq![step]),
{
    let one = seq![step];
    assert forall|k: int| 0 <= k < one.len() implies goes(replayed(held, one.take(k)), #[trigger] one[k]) by {
        assert(one.take(k) =~= Seq::<StepV>::empty());
    }
}

/// A key behind all others is new.
proof fn lemma_new_key(front: Seq<(Key, Item)>, key: Key)
    requires
        forall|i: int| 0 <= i < front.len() ==> less(#[trigger] front[i].0, key),
    ensures
        bucket_in(front, key) is None,
        value_in(front, key) is None,
{
    lemma_unlike(front, key);
}

/// Nothing is in the way of the steps of what a bucket holds, in an empty bucket.
proof fn lemma_fill_goes(held: Seq<(Key, Item)>, path: Seq<Key>, items: Seq<(Key, Item)>, sequence: u64)
    requires
        held_at(held, path) == Some(Seq::<(Key, Item)>::empty()),
        tidy(items),
    ensures
        all_go(held, steps_of(items, path, sequence)),
    decreases items,
{
    if items.len() > 0 {
        let front = items.drop_last();
        let e = items.last();
        assert forall|i: int, j: int| 0 <= i < j < front.len() implies less(
            #[trigger] front[i].0,
            #[trigger] front[j].0,
        ) by {
            assert(less(items[i].0, items[j].0));
        }
        assert forall|i: int| 0 <= i < front.len() implies tidy_item(#[trigger] front[i].1) by {
            assert(tidy_item(items[i].1));
        }
        assert(tidy(front));
        lemma_fill_goes(held, path, front, sequence);
        lemma_filled(held, path, front, sequence);
        let r1 = replayed(held, steps_of(front, path, sequence));
        assert(held_at(r1, path) == Some(front)) by {
            if front.len() == 0 {
                assert(front =~= Seq::<(Key, Item)>::empty());
            } else {
                lemma_renewed_at(held, path, front);
            }
        }
        assert forall|i: int| 0 <= i < front.len() implies less(#[trigger] front[i].0, e.0) by {
            assert(less(items[i].0, items[items.len() - 1].0));
        }
        lemma_entry_goes(r1, path, front, e, sequence);
        lemma_go_add(held, steps_of(front, path, sequence), entry_steps(e, path, sequence));
    }
}

/// Nor of those of one key, behind the others.
proof fn lemma_entry_goes(held: Seq<(Key, Item)>, path: Seq<Key>, front: Seq<(Key, Item)>, e: (Key, Item), sequence: u64)
    requires
        held_at(held, path) == Some(front),
        forall|i: int| 0 <= i < front.len() ==> less(#[trigger] front[i].0, e.0),
        tidy_item(e.1),
    ensures
        all_go(held, entry_steps(e, path, sequence)),
    decreases e,
{
    lemma_new_key(front, e.0);
    match e.1 {
        Item::Value { bytes } => {
            lemma_go_one(held, StepV { path, key: e.0, value: Some(bytes), sequence });
        },
        Item::Bucket { sequence: own, items } => {
            let step = StepV { path, key: e.0, value: None, sequence: own };
            let first = (e.0, Item::Bucket { sequence: own, items: Seq::<(Key, Item)>::empty() });
            let r2 = renewed(held, path, front.push(first));
            let below = path.push(e.0);
            lemma_go_one(held, step);
            lemma_one_step(held, step);
            lemma_entry_last(front, first);
            assert(replayed(held, seq![step]) == r2);
            lemma_renewed_at(held, path, front.push(first));
            assert(below.drop_last() =~= path);
            assert(below.last() == e.0);
            lemma_last_bucket(front, first);
            assert(held_at(r2, below) == Some(Seq::<(Key, Item)>::empty()));
            assert(decreases_to!(e => e.1));
            assert(decreases_to!(e.1 => e.1->items));
            lemma_fill_goes(r2, below, items, own);
            lemma_go_add(held, seq![step], steps_of(items, below, own));
        },
    }
}

/// When a database is copied into an empty one, the path of every step leads to a bucket, and its
/// key is new there.
pub proof fn lemma_copy_goes(held: Seq<(Key, Item)>, sequence: u64)
    requires
        tidy(held),
    ensures
        all_go(Seq::empty(), steps_of(held, Seq::empty(), sequence)),
{
    lemma_fill_goes(Seq::empty(), Seq::empty(), held, sequence);
}

// ---------------------------------------------------------------------------------------------
// What is stored is in order.

/// Every nested bucket is in order.
spec fn all_tidy(held: Seq<(Key, Item)>) -> bool {
    forall|i: int| 0 <= i < held.len() ==> tidy_item((#[trigger] held[i]).1)
}

/// Every nested bucket below a page is in order.
proof fn lemma_tidy_below(base: Base, p: Pgid)
    requires
        base.ok(),
        base.forest.contains_key(p),
    ensures
        all_tidy(contents(base.forest[p])),
    decreases base.forest[p], 0nat,
{
    let t = base.forest[p];
    let held = contents(t);
    assert(base.page_ok(p));
    match t {
        Tree::Leaf { items, subs, .. } => {
            assert forall|i: int| 0 <= i < held.len() implies tidy_item((#[trigger] held[i]).1) by {
                assert(held[i] == entry(items[i], subs[i]));
                assert(base.item_ok(items[i]));
                assert(subs[i] == base.sub(items[i]));
                if is_bucket(items[i]) {
                    let root = root_of(items[i]);
                    if root == 0 {
                        lemma_tidy_inline(inline_page(items[i].value));
                    } else {
                        assert(decreases_to!(t => t->subs));
                        assert(decreases_to!(t->subs => t->subs[i]));
                        assert(decreases_to!(t->subs[i] => t->subs[i]->0));
                        lemma_tidy(base, root);
                    }
                }
            }
            assert(all_tidy(held));
        },
        Tree::Branch { kids, .. } => {
            assert(kids.take(kids.len() as int) =~= kids);
            lemma_tidy_kids(base, p, kids.len() as int);
        },
    }
}

/// The same of the first `k` children.
proof fn lemma_tidy_kids(base: Base, p: Pgid, k: int)
    requires
        base.ok(),
        base.forest.contains_key(p),
        base.forest[p] is Branch,
        0 <= k <= base.forest[p]->kids.len(),
    ensures
        all_tidy(cat_contents(base.forest[p]->kids.take(k))),
    decreases base.forest[p]->kids, k as nat,
{
    assert(base.page_ok(p));
    let kids = base.forest[p]->kids;
    let page = base.store[p];
    if k > 0 {
        lemma_tidy_kids(base, p, k - 1);
        let child = decode(page)[k - 1].pgid;
        assert(kids[k - 1] == base.forest[child]);
        assert(decreases_to!(kids => kids[k - 1]));
        lemma_tidy_below(base, child);
        assert(kids.take(k).drop_last() =~= kids.take(k - 1));
        assert(kids.take(k).last() == kids[k - 1]);
        let a = cat_contents(kids.take(k - 1));
        let b = contents(kids[k - 1]);
        let held = cat_contents(kids.take(k));
        assert(held == a + b);
        assert forall|i: int| 0 <= i < held.len() implies tidy_item((#[trigger] held[i]).1) by {
            if i < a.len() {
                assert(held[i] == a[i]);
            } else {
                assert(held[i] == b[i - a.len()]);
            }
        }
    }
}

/// What an inline bucket holds is in order.
proof fn lemma_tidy_inline(page: Seq<u8>)
    requires
        inline_ok(page),
    ensures
        tidy(inline_contents(page)),
{
    let held = inline_contents(page);
    lemma_wf_one(inline_tree(page), None, None, true);
    lemma_wf_items(inline_tree(page), None, None, true);
    assert forall|i: int, j: int| 0 <= i < j < held.len() implies less(#[trigger] held[i].0, #[trigger] held[j].0) by {
        assert(less(decode(page)[i].key, decode(page)[j].key));
    }
}

/// What a bucket with pages of its own holds is in order.
proof fn lemma_tidy(base: Base, p: Pgid)
    requires
        base.ok(),
        base.forest.contains_key(p),
        base.forest[p].wf(None, None, true),
    ensures
        tidy(contents(base.forest[p])),
    decreases base.forest[p], 1nat,
{
    let t = base.forest[p];
    lemma_tidy_below(base, p);
    lemma_paired(t, None, None, true, 2);
    lemma_contents(t);
    lemma_wf_one(t, None, None, true);
    lemma_wf_items(t, None, None, true);
    let held = contents(t);
    assert forall|i: int, j: int| 0 <= i < j < held.len() implies less(#[trigger] held[i].0, #[trigger] held[j].0) by {
        assert(less(t.items()[i].key, t.items()[j].key));
    }
}

/// The steps that copy a stored database fill an empty one with all that it holds, and with nothing
/// else.
pub proof fn lemma_stored_copy(pages: Pages, meta: Meta, base: Base)
    requires
        stored(pages, meta, base),
    ensures
        ({
            let held = contents(base.forest[meta.root.root]);
            replayed(Seq::empty(), steps_of(held, Seq::empty(), meta.root.sequence)) == held
        }),
{
    lemma_tidy(base, meta.root.root);
    lemma_copy_exact(contents(base.forest[meta.root.root]), meta.root.sequence);
}

} // verus!
