//! Calling a function for each key.
use vstd::prelude::*;
use vstd::slice::slice_to_vec;
use crate::bucket::BucketId;
use crate::cursor::{kv_view, shown, Kv};
use crate::error::{Error, Result};
use crate::inode::InodeV;
use crate::order::{group_order, less};
use crate::page::BUCKET_LEAF_FLAG;
use crate::path::ElemRef;
use crate::seal::widened;
use crate::tree::{at_key, in_order, is_bucket, lemma_pos, pos};
use crate::tx::TxInner;

verus! {

/// A value as a callee sees it.
pub open spec fn seen_value(v: Option<&[u8]>) -> Option<Seq<u8>> {
    match v {
        Some(v) => Some(v@),
        None => None,
    }
}

/// What an answer says went wrong.
pub open spec fn wrong(answer: Result<()>) -> Option<Error> {
    match answer {
        Ok(_) => None,
        Err(e) => Some(e),
    }
}

/// `f` was called for an element, and this went wrong. For a nested bucket there is no value.
pub open spec fn told<F: Fn(&[u8], Option<&[u8]>) -> Result<()>>(f: F, item: InodeV, error: Option<Error>) -> bool {
    exists|k: &[u8], v: Option<&[u8]>, answer: Result<()>|
        k@ == item.key && seen_value(v) == (if is_bucket(item) {
            None
        } else {
            Some(item.value)
        }) && wrong(answer) == error && #[trigger] call_ensures(f, (k, v), answer)
}

/// `f` was called for the name of a nested bucket, and this went wrong.
pub open spec fn named<F: Fn(&[u8]) -> Result<()>>(f: F, item: InodeV, error: Option<Error>) -> bool {
    exists|k: &[u8], answer: Result<()>|
        k@ == item.key && wrong(answer) == error && #[trigger] call_ensures(f, (k,), answer)
}

// ---------------------------------------------------------------------------------------------
// Calls, and what is known of them.

/// One call: the element that it was made for, and what went wrong.
pub struct Call {
    pub item: InodeV,
    pub answer: Option<Error>,
}

/// The key and the value are those of an element. A nested bucket has no value.
pub open spec fn is_pair(items: Seq<InodeV>, key: Seq<u8>, value: Option<Seq<u8>>) -> bool {
    exists|i: int|
        0 <= i < items.len() && (#[trigger] items[i]).key == key && value == (if is_bucket(items[i]) {
            None
        } else {
            Some(items[i].value)
        })
}

/// The name is that of a nested bucket.
pub open spec fn is_name(items: Seq<InodeV>, name: Seq<u8>) -> bool {
    exists|i: int| 0 <= i < items.len() && is_bucket(#[trigger] items[i]) && items[i].key == name
}

/// Calls were made for the elements from the first one on, one call each. Only the last one can have
/// failed, and if it has not they were made for all.
pub open spec fn all_called(calls: Seq<Call>, items: Seq<InodeV>, error: Option<Error>) -> bool {
    &&& calls.len() <= items.len()
    &&& forall|i: int| 0 <= i < calls.len() ==> (#[trigger] calls[i]).item == items[i]
    &&& forall|i: int| 0 <= i < calls.len() - 1 ==> (#[trigger] calls[i]).answer is None
    &&& if error is None {
        calls.len() == items.len() && (calls.len() > 0 ==> calls.last().answer is None)
    } else {
        calls.len() > 0 && calls.last().answer == error
    }
}

/// Calls were made for the nested buckets among the first `g` elements, at these places, one call
/// each.
spec fn names_up_to(calls: Seq<Call>, items: Seq<InodeV>, places: Seq<int>, g: int) -> bool {
    &&& calls.len() == places.len()
    &&& forall|j: int, k: int| 0 <= j < k < places.len() ==> places[j] < places[k]
    &&& forall|k: int|
        0 <= k < places.len() ==> 0 <= #[trigger] places[k] < g && places[k] < items.len() && is_bucket(
            items[places[k]],
        ) && calls[k].item == items[places[k]] && calls[k].answer is None
    &&& forall|i: int| 0 <= i < g && i < items.len() && is_bucket(#[trigger] items[i]) ==> places.contains(i)
}

/// Calls were made for the nested buckets from the first one on, at these places, one call each. Only
/// the last one can have failed, and if it has not they were made for all.
pub open spec fn names_called(calls: Seq<Call>, items: Seq<InodeV>, error: Option<Error>, places: Seq<int>) -> bool {
    &&& calls.len() == places.len()
    &&& forall|j: int, k: int| 0 <= j < k < places.len() ==> places[j] < places[k]
    &&& forall|k: int|
        0 <= k < places.len() ==> 0 <= #[trigger] places[k] < items.len() && is_bucket(items[places[k]])
            && calls[k].item == items[places[k]]
    &&& forall|k: int| 0 <= k < calls.len() - 1 ==> (#[trigger] calls[k]).answer is None
    &&& if error is None {
        &&& calls.len() > 0 ==> calls.last().answer is None
        &&& forall|i: int| 0 <= i < items.len() && is_bucket(#[trigger] items[i]) ==> places.contains(i)
    } else {
        &&& calls.len() > 0
        &&& calls.last().answer == error
        &&& forall|i: int|
            0 <= i < items.len() && i <= places.last() && is_bucket(#[trigger] items[i]) ==> places.contains(i)
    }
}

proof fn lemma_name_called(before: Seq<Call>, after: Seq<Call>, items: Seq<InodeV>, places: Seq<int>, g: int)
    requires
        names_up_to(before, items, places, g),
        0 <= g < items.len(),
        is_bucket(items[g]),
        after.len() == before.len() + 1,
        after.drop_last() == before,
        after.last().item == items[g],
    ensures
        after.last().answer is None ==> names_up_to(after, items, places.push(g), g + 1),
        after.last().answer is Some ==> names_called(after, items, after.last().answer, places.push(g)),
{
    let more = places.push(g);
    assert forall|k: int| 0 <= k < before.len() implies after[k] == before[k] by {
        assert(after.drop_last()[k] == after[k]);
    }
    assert forall|i: int| 0 <= i < g + 1 && is_bucket(#[trigger] items[i]) implies more.contains(i) by {
        if i < g {
            let k = places.index_of(i);
            assert(places.contains(i));
            assert(more[k] == i);
        } else {
            assert(more[places.len() as int] == g);
        }
    }
    assert forall|k: int| 0 <= k < more.len() implies 0 <= #[trigger] more[k] < g + 1 && is_bucket(items[more[k]])
        && after[k].item == items[more[k]] && (k < places.len() ==> after[k].answer is None) by {
        if k < places.len() {
            assert(0 <= places[k] < g);
        }
    }
    assert forall|k: int| 0 <= k < after.len() - 1 implies (#[trigger] after[k]).answer is None by {
        assert(0 <= places[k] < g);
    }
}

/// Calls `f` for the element that a cursor shows.
fn tell<F: Fn(&[u8], Option<&[u8]>) -> Result<()>>(f: &F, kv: &Kv, Ghost(item): Ghost<InodeV>) -> (answer: Result<()>)
    requires
        kv_view(*kv) == shown(seq![item], 0),
        forall|k: &[u8], v: Option<&[u8]>|
            is_pair(seq![item], k@, seen_value(v)) ==> #[trigger] call_requires(*f, (k, v)),
    ensures
        told(*f, item, wrong(answer)),
{
    let value: Option<&[u8]> = match &kv.1 {
        Some(v) => Some(v.as_slice()),
        None => None,
    };
    match &kv.0 {
        Some(k) => {
            proof {
                let items = seq![item];
                assert(items[0].key == k@);
                assert(is_pair(items, k@, seen_value(value)));
            }
            f(k.as_slice(), value)
        },
        None => Ok(()),
    }
}

/// Calls `f` for the name of the nested bucket that a cursor shows.
fn name<F: Fn(&[u8]) -> Result<()>>(f: &F, kv: &Kv, Ghost(item): Ghost<InodeV>) -> (answer: Result<()>)
    requires
        kv_view(*kv) == shown(seq![item], 0),
        forall|k: &[u8]| k@ == item.key ==> #[trigger] call_requires(*f, (k,)),
    ensures
        named(*f, item, wrong(answer)),
{
    match &kv.0 {
        Some(k) => f(k.as_slice()),
        None => Ok(()),
    }
}

/// A function that is called with keys and values, and what it was called for so far.
struct PairCaller<F> {
    f: F,
    items: Ghost<Seq<InodeV>>,
    calls: Ghost<Seq<Call>>,
}

impl<F: Fn(&[u8], Option<&[u8]>) -> Result<()>> PairCaller<F> {
    /// The function may be called for the elements, and was so with the answers that are noted.
    spec fn ok(&self) -> bool {
        &&& forall|k: &[u8], v: Option<&[u8]>|
            is_pair(self.items@, k@, seen_value(v)) ==> #[trigger] call_requires(self.f, (k, v))
        &&& forall|i: int| 0 <= i < self.calls@.len() ==> #[trigger] self.holds(i)
    }

    /// Call `i` was made.
    spec fn holds(&self, i: int) -> bool {
        told(self.f, self.calls@[i].item, self.calls@[i].answer)
    }

    fn new(f: F, Ghost(items): Ghost<Seq<InodeV>>) -> (c: Self)
        requires
            forall|k: &[u8], v: Option<&[u8]>|
                is_pair(items, k@, seen_value(v)) ==> #[trigger] call_requires(f, (k, v)),
        ensures
            c.ok(),
            c.f == f,
            c.items@ == items,
            c.calls@.len() == 0,
    {
        PairCaller { f, items: Ghost(items), calls: Ghost(Seq::empty()) }
    }

    /// Calls the function for the element that a cursor shows.
    fn call(&mut self, kv: &Kv, Ghost(i): Ghost<int>) -> (answer: Result<()>)
        requires
            old(self).ok(),
            0 <= i < old(self).items@.len(),
            kv_view(*kv) == shown(old(self).items@, i),
        ensures
            final(self).ok(),
            final(self).f == old(self).f,
            final(self).items == old(self).items,
            final(self).calls@ == old(self).calls@.push(Call { item: old(self).items@[i], answer: wrong(answer) }),
    {
        let ghost item = self.items@[i];
        proof {
            assert(shown(seq![item], 0) == shown(self.items@, i));
            assert forall|k: &[u8], v: Option<&[u8]>|
                is_pair(seq![item], k@, seen_value(v)) implies #[trigger] call_requires(self.f, (k, v)) by {
                assert(self.items@[i] == item);
                assert(is_pair(self.items@, k@, seen_value(v)));
            }
        }
        let answer: Result<()> = tell(&self.f, kv, Ghost(item));
        proof {
            let before = self.calls@;
            let was = *self;
            self.calls@ = before.push(Call { item, answer: wrong(answer) });
            assert forall|j: int| 0 <= j < self.calls@.len() implies #[trigger] self.holds(j) by {
                if j < before.len() {
                    assert(was.holds(j));
                }
            }
        }
        answer
    }
}

/// A function that is called with names, and what it was called for so far.
struct NameCaller<F> {
    f: F,
    items: Ghost<Seq<InodeV>>,
    calls: Ghost<Seq<Call>>,
}

impl<F: Fn(&[u8]) -> Result<()>> NameCaller<F> {
    /// The function may be called for the nested buckets, and was so with the answers that are noted.
    spec fn ok(&self) -> bool {
        &&& forall|k: &[u8]| is_name(self.items@, k@) ==> #[trigger] call_requires(self.f, (k,))
        &&& forall|i: int| 0 <= i < self.calls@.len() ==> #[trigger] self.holds(i)
    }

    /// Call `i` was made.
    spec fn holds(&self, i: int) -> bool {
        named(self.f, self.calls@[i].item, self.calls@[i].answer)
    }

    fn new(f: F, Ghost(items): Ghost<Seq<InodeV>>) -> (c: Self)
        requires
            forall|k: &[u8]| is_name(items, k@) ==> #[trigger] call_requires(f, (k,)),
        ensures
            c.ok(),
            c.f == f,
            c.items@ == items,
            c.calls@.len() == 0,
    {
        NameCaller { f, items: Ghost(items), calls: Ghost(Seq::empty()) }
    }

    /// Calls the function for the nested bucket that a cursor shows.
    fn call(&mut self, kv: &Kv, Ghost(i): Ghost<int>) -> (answer: Result<()>)
        requires
            old(self).ok(),
            0 <= i < old(self).items@.len(),
            is_bucket(old(self).items@[i]),
            kv_view(*kv) == shown(old(self).items@, i),
        ensures
            final(self).ok(),
            final(self).f == old(self).f,
            final(self).items == old(self).items,
            final(self).calls@ == old(self).calls@.push(Call { item: old(self).items@[i], answer: wrong(answer) }),
    {
        let ghost item = self.items@[i];
        proof {
            assert(shown(seq![item], 0) == shown(self.items@, i));
            assert forall|k: &[u8]| k@ == item.key implies #[trigger] call_requires(self.f, (k,)) by {
                assert(self.items@[i] == item);
                assert(is_name(self.items@, k@));
            }
        }
        let answer: Result<()> = name(&self.f, kv, Ghost(item));
        proof {
            let before = self.calls@;
            let was = *self;
            self.calls@ = before.push(Call { item, answer: wrong(answer) });
            assert forall|j: int| 0 <= j < self.calls@.len() implies #[trigger] self.holds(j) by {
                if j < before.len() {
                    assert(was.holds(j));
                }
            }
        }
        answer
    }
}

impl<'a> TxInner<'a> {
    /// A cursor stands at element `g`, or behind all elements.
    #[verifier::opaque]
    spec fn stands(&self, b: int, stack: Seq<ElemRef>, g: int) -> bool {
        &&& stack.len() > 0
        &&& self.placed(b, stack)
        &&& !self.missing(b, stack)
        &&& g < self.items(b).len() ==> self.at_item(b, self.spot(b, stack), g)
    }

    /// Goes on to the next element.
    fn go_on(&self, b: BucketId, stack: &mut Vec<ElemRef>, Ghost(g): Ghost<int>) -> (kv: Kv)
        requires
            self.good(),
            self.has(b as int),
            self.stands(b as int, old(stack)@, g),
            0 <= g < self.items(b as int).len(),
        ensures
            self.stands(b as int, final(stack)@, g + 1),
            kv_view(kv) == shown(self.items(b as int), g + 1),
    {
        proof {
            reveal(TxInner::stands);
            self.lemma_next_in_order(b as int, stack@, g);
        }
        let r: Result<Kv> = self.cursor_next(b, stack);
        proof {
            if g + 1 < self.items(b as int).len() {
                self.lemma_at_item(b as int, stack@, g + 1);
            }
        }
        match r {
            Ok(kv) => kv,
            Err(_) => (None, None, 0),
        }
    }

    /// Calls `f` for each key of a bucket, in order, until a call fails. It is called with nothing else.
    pub fn for_each<F: Fn(&[u8], Option<&[u8]>) -> Result<()>>(&self, b: BucketId, f: F) -> (r: Result<()>)
        requires
            self.good(),
            self.has(b as int),
            forall|k: &[u8], v: Option<&[u8]>|
                self.shut() is None && is_pair(self.items(b as int), k@, seen_value(v)) ==> #[trigger] call_requires(
                    f,
                    (k, v),
                ),
        ensures
            match self.shut() {
                Some(e) => r == Err::<(), Error>(e),
                None => {
                    let items = self.items(b as int);
                    match r {
                        Ok(_) => forall|i: int| 0 <= i < items.len() ==> told(f, #[trigger] items[i], None),
                        Err(e) => exists|i: int|
                            0 <= i < items.len() && told(f, #[trigger] items[i], Some(e)) && forall|j: int|
                                0 <= j < i ==> told(f, #[trigger] items[j], None),
                    }
                },
            },
    {
        if self.closed || !self.opened {
            return Err(Error::TxClosed);
        }
        let mut caller: PairCaller<F> = PairCaller::new(f, Ghost(self.items(b as int)));
        let r: Result<()> = self.call_pairs(b, &mut caller);
        proof {
            let items = self.items(b as int);
            let calls = caller.calls@;
            assert forall|i: int| 0 <= i < calls.len() implies told(f, #[trigger] items[i], calls[i].answer) by {
                assert(calls[i].item == items[i]);
                assert(caller.holds(i));
            }
            if r is Err {
                assert(told(f, items[calls.len() - 1], Some(r->Err_0)));
            }
        }
        r
    }

    /// Makes a call for each key of a bucket, in order, until one fails: no key is left out before that,
    /// none comes twice, and no call is made for anything else.
    fn call_pairs<F: Fn(&[u8], Option<&[u8]>) -> Result<()>>(&self, b: BucketId, caller: &mut PairCaller<F>) -> (r: Result<
        (),
    >)
        requires
            self.good(),
            self.has(b as int),
            self.shut() is None,
            old(caller).ok(),
            old(caller).items@ == self.items(b as int),
            old(caller).calls@.len() == 0,
        ensures
            final(caller).ok(),
            final(caller).f == old(caller).f,
            all_called(final(caller).calls@, self.items(b as int), wrong(r)),
    {
        let ghost items = self.items(b as int);
        let ghost f0 = caller.f;
        let mut stack: Vec<ElemRef> = Vec::new();
        let mut kv: Kv = match self.cursor_first(b, &mut stack) {
            Ok(kv) => kv,
            Err(_) => (None, None, 0),
        };
        proof {
            self.lemma_first_shown(b as int);
            reveal(TxInner::stands);
        }
        while kv.0.is_some()
            invariant
                self.good(),
                self.has(b as int),
                self.shut() is None,
                items == self.items(b as int),
                f0 == old(caller).f,
                caller.ok(),
                caller.f == f0,
                caller.items@ == items,
                caller.calls@.len() <= items.len(),
                kv_view(kv) == shown(items, caller.calls@.len() as int),
                self.stands(b as int, stack@, caller.calls@.len() as int),
                forall|i: int|
                    0 <= i < caller.calls@.len() ==> (#[trigger] caller.calls@[i]).item == items[i]
                        && caller.calls@[i].answer is None,
            decreases items.len() - caller.calls@.len(),
        {
            let ghost g = caller.calls@.len() as int;
            let ghost before = caller.calls@;
            let answer: Result<()> = caller.call(&kv, Ghost(g));
            match answer {
                Ok(_) => {},
                Err(e) => {
                    assert(caller.calls@[g].answer == Some(e));
                    return Err(e);
                },
            }
            kv = self.go_on(b, &mut stack, Ghost(g));
        }
        Ok(())
    }

    /// Calls `f` for the name of each nested bucket of a bucket, in order, until a call fails. It is
    /// called with nothing else.
    pub fn for_each_bucket<F: Fn(&[u8]) -> Result<()>>(&self, b: BucketId, f: F) -> (r: Result<()>)
        requires
            self.good(),
            self.has(b as int),
            forall|k: &[u8]|
                self.shut() is None && is_name(self.items(b as int), k@) ==> #[trigger] call_requires(f, (k,)),
        ensures
            match self.shut() {
                Some(e) => r == Err::<(), Error>(e),
                None => {
                    let items = self.items(b as int);
                    match r {
                        Ok(_) => forall|i: int|
                            0 <= i < items.len() && is_bucket(#[trigger] items[i]) ==> named(f, items[i], None),
                        Err(e) => exists|i: int|
                            0 <= i < items.len() && is_bucket(#[trigger] items[i]) && named(f, items[i], Some(e))
                                && forall|j: int|
                                0 <= j < i && is_bucket(#[trigger] items[j]) ==> named(f, items[j], None),
                    }
                },
            },
    {
        if self.closed || !self.opened {
            return Err(Error::TxClosed);
        }
        let mut caller: NameCaller<F> = NameCaller::new(f, Ghost(self.items(b as int)));
        let r: Result<()> = self.call_names(b, &mut caller);
        proof {
            let items = self.items(b as int);
            let calls = caller.calls@;
            let n = if r is Err { calls.len() - 1 } else { calls.len() as int };
            let places = choose|places: Seq<int>| #[trigger] names_called(calls, items, wrong(r), places);
            assert forall|i: int|
                0 <= i < items.len() && is_bucket(#[trigger] items[i]) && (r is Err ==> i < places[n]) implies named(
                f,
                items[i],
                None,
            ) by {
                assert(places.contains(i));
                let k = places.index_of(i);
                assert(calls[k].item == items[places[k]]);
                assert(caller.holds(k));
                if r is Err && k >= n {
                    assert(k == n);
                }
            }
            if r is Err {
                assert(calls[n].item == items[places[n]]);
                assert(caller.holds(n));
                assert(named(f, items[places[n]], Some(r->Err_0)));
            }
        }
        r
    }

    /// Makes a call for the name of each nested bucket of a bucket, in order, until one fails: no bucket
    /// is left out before that, none comes twice, and no call is made for anything else.
    fn call_names<F: Fn(&[u8]) -> Result<()>>(&self, b: BucketId, caller: &mut NameCaller<F>) -> (r: Result<()>)
        requires
            self.good(),
            self.has(b as int),
            self.shut() is None,
            old(caller).ok(),
            old(caller).items@ == self.items(b as int),
            old(caller).calls@.len() == 0,
        ensures
            final(caller).ok(),
            final(caller).f == old(caller).f,
            exists|places: Seq<int>| #[trigger]
                names_called(final(caller).calls@, self.items(b as int), wrong(r), places),
    {
        let ghost items = self.items(b as int);
        let ghost f0 = caller.f;
        let mut stack: Vec<ElemRef> = Vec::new();
        let mut kv: Kv = match self.cursor_first(b, &mut stack) {
            Ok(kv) => kv,
            Err(_) => (None, None, 0),
        };
        let ghost mut g: int = 0;
        let ghost mut places: Seq<int> = Seq::empty();
        proof {
            self.lemma_first_shown(b as int);
            reveal(TxInner::stands);
        }
        while kv.0.is_some()
            invariant
                self.good(),
                self.has(b as int),
                self.shut() is None,
                items == self.items(b as int),
                f0 == old(caller).f,
                caller.ok(),
                caller.f == f0,
                caller.items@ == items,
                0 <= g <= items.len(),
                kv_view(kv) == shown(items, g),
                self.stands(b as int, stack@, g),
                names_up_to(caller.calls@, items, places, g),
            decreases items.len() - g,
        {
            if kv.2 & BUCKET_LEAF_FLAG != 0 {
                let ghost before = caller.calls@;
                let answer: Result<()> = caller.call(&kv, Ghost(g));
                proof {
                    assert(caller.calls@.drop_last() =~= before);
                    lemma_name_called(before, caller.calls@, items, places, g);
                    places = places.push(g);
                }
                match answer {
                    Ok(_) => {},
                    Err(e) => {
                        assert(names_called(caller.calls@, items, Some(e), places));
                        return Err(e);
                    },
                }
            }
            kv = self.go_on(b, &mut stack, Ghost(g));
            proof {
                g = g + 1;
            }
        }
        proof {
            assert forall|k: int| 0 <= k < caller.calls@.len() implies (#[trigger] caller.calls@[k]).answer is None by {
                assert(0 <= places[k] < g);
            }
            assert(names_called(caller.calls@, items, None, places));
        }
        Ok(())
    }

    /// The keys of a bucket in order, each with whether a nested bucket is there.
    pub fn listing(&self, b: BucketId) -> (list: Vec<(Vec<u8>, bool)>)
        requires
            self.good(),
            self.has(b as int),
            self.shut() is None,
        ensures
            list@.len() == self.items(b as int).len(),
            forall|i: int|
                0 <= i < list@.len() ==> (#[trigger] list@[i]).0@ == self.items(b as int)[i].key && list@[i].1 == is_bucket(
                    self.items(b as int)[i],
                ),
    {
        let ghost items = self.items(b as int);
        let mut list: Vec<(Vec<u8>, bool)> = Vec::new();
        let mut stack: Vec<ElemRef> = Vec::new();
        let mut kv: Kv = match self.cursor_first(b, &mut stack) {
            Ok(kv) => kv,
            Err(_) => (None, None, 0),
        };
        proof {
            self.lemma_first_shown(b as int);
            reveal(TxInner::stands);
        }
        while kv.0.is_some()
            invariant
                self.good(),
                self.has(b as int),
                items == self.items(b as int),
                list@.len() <= items.len(),
                kv_view(kv) == shown(items, list@.len() as int),
                self.stands(b as int, stack@, list@.len() as int),
                forall|i: int|
                    0 <= i < list@.len() ==> (#[trigger] list@[i]).0@ == items[i].key && list@[i].1 == is_bucket(items[i]),
            decreases items.len() - list@.len(),
        {
            let ghost g = list@.len() as int;
            let nested: bool = kv.2 & BUCKET_LEAF_FLAG != 0;
            match &kv.0 {
                Some(k) => {
                    list.push((slice_to_vec(k.as_slice()), nested));
                },
                None => {},
            }
            kv = self.go_on(b, &mut stack, Ghost(g));
        }
        list
    }

    /// The lengths of the keys and values of a bucket, in order. A nested bucket is counted with a
    /// whole page at least.
    pub fn sizes(&self, b: BucketId) -> (list: Vec<(usize, usize)>)
        requires
            self.good(),
            self.has(b as int),
            self.shut() is None,
        ensures
            sizes_of(list@, widened(self.items(b as int), self.pages.page_size as int)),
    {
        let page_size: usize = self.pages.page_size;
        let ghost items = self.items(b as int);
        let ghost wide = widened(items, page_size as int);
        let mut list: Vec<(usize, usize)> = Vec::new();
        let mut stack: Vec<ElemRef> = Vec::new();
        let mut kv: Kv = match self.cursor_first(b, &mut stack) {
            Ok(kv) => kv,
            Err(_) => (None, None, 0),
        };
        proof {
            self.lemma_first_shown(b as int);
            reveal(TxInner::stands);
            self.buckets@[b as int].lemma_items(self.base@, true);
        }
        while kv.0.is_some()
            invariant
                self.good(),
                self.has(b as int),
                page_size == self.pages.page_size,
                items == self.items(b as int),
                wide == widened(items, page_size as int),
                in_order(items),
                list@.len() <= items.len(),
                kv_view(kv) == shown(items, list@.len() as int),
                self.stands(b as int, stack@, list@.len() as int),
                forall|i: int|
                    0 <= i < list@.len() ==> (#[trigger] list@[i]).0 == wide[i].key.len() && list@[i].1
                        == wide[i].value.len(),
            decreases items.len() - list@.len(),
        {
            let ghost g = list@.len() as int;
            match &kv.0 {
                Some(k) => {
                    let mut n: usize = match &kv.1 {
                        Some(v) => v.len(),
                        None => 0,
                    };
                    if kv.2 & BUCKET_LEAF_FLAG != 0 {
                        match self.buckets[b].find(&self.pages, k.as_slice(), self.base, Ghost(true)) {
                            Some(item) => {
                                proof {
                                    lemma_found(items, g);
                                }
                                n = item.value.len();
                            },
                            None => {
                                proof {
                                    lemma_found(items, g);
                                }
                            },
                        }
                        if n < page_size {
                            n = page_size;
                        }
                    }
                    list.push((k.len(), n));
                },
                None => {},
            }
            kv = self.go_on(b, &mut stack, Ghost(g));
        }
        list
    }
}

/// The lengths are those of the keys and values of some elements.
pub open spec fn sizes_of(list: Seq<(usize, usize)>, items: Seq<InodeV>) -> bool {
    &&& list.len() == items.len()
    &&& forall|i: int|
        0 <= i < list.len() ==> (#[trigger] list[i]).0 == items[i].key.len() && list[i].1 == items[i].value.len()
}

/// An element is found by its key.
proof fn lemma_found(items: Seq<InodeV>, i: int)
    requires
        in_order(items),
        0 <= i < items.len(),
    ensures
        at_key(items, items[i].key) == Some(items[i]),
{
    broadcast use group_order;

    let key = items[i].key;
    lemma_pos(items, key);
    let q = pos(items, key);
    if q != i && 0 <= q < items.len() {
        if q < i {
            assert(less(items[q].key, items[i].key));
        } else {
            assert(less(items[i].key, items[q].key));
        }
    }
}

} // verus!
