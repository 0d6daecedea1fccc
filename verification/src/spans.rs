//! Sets of page ids kept as spans of consecutive ids, indexed by start, by end and by size.
use std::collections::{HashMap, HashSet};
use vstd::prelude::*;
use crate::page::Pgid;
use crate::pgids::{lemma_same_elements, lemma_sorted_distinct, sort_pgids, strictly_sorted};

verus! {

broadcast use vstd::std_specs::hash::group_hash_axioms;

/// The ids from `start` up to, but not with, `end`.
pub open spec fn id_range(start: int, end: int) -> Set<Pgid> {
    Set::new(|p: Pgid| start <= p < end)
}

/// Whether `p` can be the id of a free page. Zero and the largest number stand for no page.
pub open spec fn valid_id(p: Pgid) -> bool {
    0 < p < u64::MAX
}

/// The ids that a table of spans covers.
pub open spec fn covered(fwd: Map<Pgid, u64>) -> Set<Pgid> {
    Set::new(|p: Pgid| exists|s: Pgid| #[trigger] fwd.contains_key(s) && s <= p < s + fwd[s])
}

/// Every id from `start` on, `n` of them, is in the set.
pub open spec fn is_run(free: Set<Pgid>, start: int, n: int) -> bool {
    &&& 0 <= start
    &&& start + n <= u64::MAX
    &&& forall|p: Pgid| start <= p < start + n ==> #[trigger] free.contains(p)
}

/// A run that neither neighbour extends.
pub open spec fn is_whole_run(free: Set<Pgid>, start: int, n: int) -> bool {
    &&& n > 0
    &&& start > 0
    &&& is_run(free, start, n)
    &&& !free.contains((start - 1) as u64)
    &&& !free.contains((start + n) as u64)
}

/// Adding a range to a set that it does not meet adds its length to the size of the set.
pub proof fn lemma_add_range(a: Set<Pgid>, start: int, n: int)
    requires
        a.finite(),
        0 <= start,
        0 <= n,
        start + n <= u64::MAX,
        forall|p: Pgid| start <= p < start + n ==> !a.contains(p),
    ensures
        a.union(id_range(start, start + n)).finite(),
        a.union(id_range(start, start + n)).len() == a.len() + n,
    decreases n,
{
    if n == 0 {
        assert(a.union(id_range(start, start)) =~= a);
    } else {
        lemma_add_range(a, start, n - 1);
        let last = (start + n - 1) as u64;
        let b = a.union(id_range(start, start + n - 1));
        assert(!b.contains(last));
        assert(a.union(id_range(start, start + n)) =~= b.insert(last));
    }
}

/// A set of valid ids is small enough to be counted.
pub proof fn lemma_ids_bounded(a: Set<Pgid>, hi: int)
    requires
        a.finite(),
        0 <= hi <= u64::MAX,
        forall|p: Pgid| #[trigger] a.contains(p) ==> 0 < p <= hi,
    ensures
        a.len() <= hi,
    decreases hi,
{
    if hi == 0 {
        assert(a =~= Set::<Pgid>::empty());
    } else {
        lemma_ids_bounded(a.remove(hi as u64), hi - 1);
    }
}

/// The keys of a table, in no particular order.
pub fn map_keys<V>(m: &HashMap<u64, V>) -> (keys: Vec<u64>)
    ensures
        keys@.no_duplicates(),
        forall|k: u64| keys@.contains(k) <==> m@.contains_key(k),
{
    let mut keys: Vec<u64> = Vec::new();
    let ghost listed = vstd::std_specs::iter::IteratorSpec::remaining(&m.keys());
    let ghost all = listed.unref();
    for k in it: m.keys()
        invariant
            it.seq().unref() == all,
            keys@ == all.take(it.index() as int),
    {
        keys.push(*k);
        assert(keys@ =~= all.take(it.index() + 1));
    }
    assert(all.take(all.len() as int) =~= all);
    proof {
        assert(all.to_set() == m@.dom());
        assert forall|k: u64| keys@.contains(k) <==> m@.contains_key(k) by {
            assert(all.contains(k) <==> all.to_set().contains(k));
        }
        assert(listed.no_duplicates());
        assert forall|i: int, j: int| 0 <= i < all.len() && 0 <= j < all.len() && i != j implies all[i]
            != all[j] by {
            assert(*(listed[i]) != *(listed[j]));
        }
    }
    keys
}

/// Some member of a set.
fn any_of(set: &HashSet<u64>) -> (r: Option<u64>)
    ensures
        match r {
            Some(x) => set@.contains(x),
            None => set@ == Set::<u64>::empty(),
        },
{
    let ghost listed = vstd::std_specs::iter::IteratorSpec::remaining(&set.iter());
    for x in it: set.iter()
        invariant
            it.seq() == listed,
            it.index() == 0,
    {
        assert(listed.unref().to_set() == set@);
        assert(listed.unref().contains(listed.unref()[0]));
        return Some(*x);
    }
    assert(listed.unref().to_set() == set@);
    assert(set@ =~= Set::<u64>::empty());
    None
}

/// A set of page ids as spans.
pub struct Spans {
    free_pages_count: u64,
    freemaps: HashMap<u64, HashSet<Pgid>>,
    forward_map: HashMap<Pgid, u64>,
    backward_map: HashMap<Pgid, u64>,
}

/// The spans lie apart from each other: between two of them is at least one id of neither.
pub open spec fn apart(fwd: Map<Pgid, u64>) -> bool {
    &&& forall|s: Pgid| #[trigger] fwd.contains_key(s) ==> s >= 1 && fwd[s] >= 1 && s + fwd[s] <= u64::MAX
    &&& forall|s: Pgid, t: Pgid|
        #[trigger] fwd.contains_key(s) && #[trigger] fwd.contains_key(t) && s < t ==> s + fwd[s] < t
}

impl Spans {
    /// The ids in the set.
    #[verifier::opaque]
    pub closed spec fn view(&self) -> Set<Pgid> {
        covered(self.forward_map@)
    }

    closed spec fn inv_backward(&self) -> bool {
        let fwd = self.forward_map@;
        let bwd = self.backward_map@;
        &&& forall|s: Pgid|
            #[trigger] fwd.contains_key(s) ==> bwd.contains_key((s + fwd[s] - 1) as u64) && bwd[(s
                + fwd[s] - 1) as u64] == fwd[s]
        &&& forall|e: Pgid|
            #[trigger] bwd.contains_key(e) ==> 1 <= bwd[e] <= e && fwd.contains_key(
                (e + 1 - bwd[e]) as u64,
            ) && fwd[(e + 1 - bwd[e]) as u64] == bwd[e]
    }

    closed spec fn inv_sizes(&self) -> bool {
        let fwd = self.forward_map@;
        let fm = self.freemaps@;
        &&& forall|s: Pgid| #[trigger] fwd.contains_key(s) ==> fm.contains_key(fwd[s]) && fm[fwd[s]]@.contains(s)
        &&& forall|n: u64, s: Pgid|
            #[trigger] fm.contains_key(n) && #[trigger] fm[n]@.contains(s) ==> fwd.contains_key(s) && fwd[s] == n
        &&& forall|n: u64| #[trigger] fm.contains_key(n) ==> exists|s: Pgid| fm[n]@.contains(s)
    }

    /// The three indexes agree.
    #[verifier::opaque]
    pub closed spec fn inv(&self) -> bool {
        &&& apart(self.forward_map@)
        &&& self.inv_backward()
        &&& self.inv_sizes()
        &&& self@.finite()
        &&& self@.len() == self.free_pages_count
    }

    /// The empty set.
    pub fn new() -> (s: Self)
        ensures
            s.inv(),
            s@ == Set::<Pgid>::empty(),
    {
        proof {
            reveal(Spans::inv);
            reveal(Spans::view);
        }
        let s = Spans {
            free_pages_count: 0,
            freemaps: HashMap::new(),
            forward_map: HashMap::new(),
            backward_map: HashMap::new(),
        };
        assert(s@ =~= Set::<Pgid>::empty());
        s
    }

    /// The number of ids in the set.
    pub fn count(&self) -> (n: u64)
        requires
            self.inv(),
        ensures
            n == self@.len(),
            self@.finite(),
    {
        proof {
            reveal(Spans::inv);
            reveal(Spans::view);
        }
        self.free_pages_count
    }

    /// What `inv` says of the ids.
    pub proof fn lemma_ids(&self)
        requires
            self.inv(),
        ensures
            self@.finite(),
            forall|p: Pgid| #[trigger] self@.contains(p) ==> valid_id(p),
    {
        reveal(Spans::inv);
        reveal(Spans::view);
    }

    /// Adds the ids from `start` on, `size` of them, which no id of the set touches.
    fn add_span(&mut self, start: Pgid, size: u64)
        requires
            old(self).inv(),
            start >= 1,
            size >= 1,
            start + size <= u64::MAX,
            forall|p: Pgid| start - 1 <= p <= start + size ==> !(#[trigger] old(self)@.contains(p)),
        ensures
            final(self).inv(),
            final(self)@ == old(self)@.union(id_range(start as int, start + size)),
            final(self).forward_map@ == old(self).forward_map@.insert(start, size),
    {
        proof {
            reveal(Spans::inv);
            reveal(Spans::view);
        }
        let ghost fwd = self.forward_map@;
        let ghost s0 = self@;
        proof {
            assert forall|s: Pgid| #[trigger] fwd.contains_key(s) && s < start implies s + fwd[s] < start by {
                if s + fwd[s] >= start {
                    assert(s0.contains((start - 1) as u64));
                }
            }
            assert forall|s: Pgid| #[trigger] fwd.contains_key(s) && s >= start implies start + size < s by {
                if s <= start + size {
                    assert(s0.contains(s));
                }
            }
            lemma_add_range(s0, start as int, size as int);
            lemma_ids_bounded(s0.union(id_range(start as int, start + size)), u64::MAX as int);
        }
        self.backward_map.insert(start + (size - 1), size);
        self.forward_map.insert(start, size);
        let mut set: HashSet<Pgid> = match self.freemaps.remove(&size) {
            Some(set) => set,
            None => HashSet::new(),
        };
        set.insert(start);
        self.freemaps.insert(size, set);
        self.free_pages_count = self.free_pages_count + size;
        proof {
            let f1 = self.forward_map@;
            assert forall|p: Pgid| #[trigger] self@.contains(p) <==> s0.union(
                id_range(start as int, start + size),
            ).contains(p) by {
                if s0.contains(p) {
                    let s = choose|s: Pgid| #[trigger] fwd.contains_key(s) && s <= p < s + fwd[s];
                    assert(f1.contains_key(s) && s <= p < s + f1[s]);
                }
                if id_range(start as int, start + size).contains(p) {
                    assert(f1.contains_key(start) && start <= p < start + f1[start]);
                }
                if self@.contains(p) {
                    let s = choose|s: Pgid| #[trigger] f1.contains_key(s) && s <= p < s + f1[s];
                    if s != start {
                        assert(fwd.contains_key(s));
                    }
                }
            }
            assert(self@ =~= s0.union(id_range(start as int, start + size)));
            assert(self.inv_sizes()) by {
                let fm = self.freemaps@;
                let fm0 = old(self).freemaps@;
                assert forall|s: Pgid| #[trigger] f1.contains_key(s) implies fm.contains_key(f1[s])
                    && fm[f1[s]]@.contains(s) by {
                    if s != start {
                        assert(fwd.contains_key(s));
                    }
                }
                assert forall|n: u64, s: Pgid| #[trigger]
                    fm.contains_key(n) && #[trigger] fm[n]@.contains(s) implies f1.contains_key(s)
                    && f1[s] == n by {
                    if n == size && s == start {
                    } else {
                        assert(fm0.contains_key(n) && fm0[n]@.contains(s));
                        assert(fwd.contains_key(s));
                        if s == start {
                            assert(s0.contains(s));
                        }
                    }
                }
                assert forall|n: u64| #[trigger] fm.contains_key(n) implies exists|s: Pgid|
                    fm[n]@.contains(s) by {
                    if n == size {
                        assert(fm[n]@.contains(start));
                    } else {
                        assert(fm0.contains_key(n));
                        let s = choose|s: Pgid| fm0[n]@.contains(s);
                        assert(fm[n]@.contains(s));
                    }
                }
            }
            assert(self.inv_backward()) by {
                let bwd = self.backward_map@;
                let bwd0 = old(self).backward_map@;
                assert forall|s: Pgid| #[trigger] f1.contains_key(s) implies bwd.contains_key(
                    (s + f1[s] - 1) as u64,
                ) && bwd[(s + f1[s] - 1) as u64] == f1[s] by {
                    if s != start {
                        assert(fwd.contains_key(s));
                    }
                }
                assert forall|e: Pgid| #[trigger] bwd.contains_key(e) implies 1 <= bwd[e] <= e
                    && f1.contains_key((e + 1 - bwd[e]) as u64) && f1[(e + 1 - bwd[e]) as u64]
                    == bwd[e] by {
                    if e != (start + size - 1) as u64 {
                        assert(bwd0.contains_key(e));
                        let t = (e + 1 - bwd[e]) as u64;
                        assert(fwd.contains_key(t));
                        if t == start {
                            assert(s0.contains(t));
                        }
                    }
                }
            }
        }
    }

    /// Takes out the span that starts at `start`.
    fn del_span(&mut self, start: Pgid, size: u64)
        requires
            old(self).inv(),
            old(self).forward_map@.contains_key(start),
            old(self).forward_map@[start] == size,
        ensures
            final(self).inv(),
            final(self)@ == old(self)@.difference(id_range(start as int, start + size)),
            final(self).forward_map@ == old(self).forward_map@.remove(start),
            is_whole_run(old(self)@, start as int, size as int),
    {
        proof {
            reveal(Spans::inv);
            reveal(Spans::view);
        }
        let ghost fwd = self.forward_map@;
        let ghost s0 = self@;
        proof {
            assert forall|p: Pgid| start <= p < start + size implies #[trigger] s0.contains(p) by {
                assert(fwd.contains_key(start));
            }
            if s0.contains((start - 1) as u64) {
                let s = choose|s: Pgid| #[trigger] fwd.contains_key(s) && s <= start - 1 < s + fwd[s];
                assert(fwd.contains_key(start));
            }
            if s0.contains((start + size) as u64) {
                let s = choose|s: Pgid| #[trigger] fwd.contains_key(s) && s <= start + size < s + fwd[s];
                assert(fwd.contains_key(start));
            }
        }
        self.forward_map.remove(&start);
        self.backward_map.remove(&(start + (size - 1)));
        let mut set: HashSet<Pgid> = match self.freemaps.remove(&size) {
            Some(set) => set,
            None => HashSet::new(),
        };
        set.remove(&start);
        let empty: bool = match any_of(&set) {
            Some(_) => false,
            None => true,
        };
        if !empty {
            self.freemaps.insert(size, set);
        }
        proof {
            let rest = s0.difference(id_range(start as int, start + size));
            lemma_add_range(rest, start as int, size as int);
            assert(rest.union(id_range(start as int, start + size)) =~= s0);
        }
        self.free_pages_count = self.free_pages_count - size;
        proof {
            let f1 = self.forward_map@;
            assert forall|p: Pgid| #[trigger] self@.contains(p) <==> s0.difference(
                id_range(start as int, start + size),
            ).contains(p) by {
                if s0.contains(p) && !(start <= p < start + size) {
                    let s = choose|s: Pgid| #[trigger] fwd.contains_key(s) && s <= p < s + fwd[s];
                    assert(f1.contains_key(s) && s <= p < s + f1[s]);
                }
                if self@.contains(p) {
                    let s = choose|s: Pgid| #[trigger] f1.contains_key(s) && s <= p < s + f1[s];
                    assert(fwd.contains_key(s));
                    assert(fwd.contains_key(start));
                }
            }
            assert(self@ =~= s0.difference(id_range(start as int, start + size)));
            assert(apart(f1)) by {
                assert forall|s: Pgid| #[trigger] f1.contains_key(s) implies s >= 1 && f1[s] >= 1 && s
                    + f1[s] <= u64::MAX by {
                    assert(fwd.contains_key(s));
                }
                assert forall|s: Pgid, t: Pgid| #[trigger] f1.contains_key(s) && #[trigger]
                    f1.contains_key(t) && s < t implies s + f1[s] < t by {
                    assert(fwd.contains_key(s) && fwd.contains_key(t));
                }
            }
            assert(self.inv_sizes()) by {
                let fm = self.freemaps@;
                let fm0 = old(self).freemaps@;
                assert forall|s: Pgid| #[trigger] f1.contains_key(s) implies fm.contains_key(f1[s])
                    && fm[f1[s]]@.contains(s) by {
                    assert(fwd.contains_key(s));
                    assert(fm0.contains_key(f1[s]) && fm0[f1[s]]@.contains(s));
                }
                assert forall|n: u64, s: Pgid| #[trigger]
                    fm.contains_key(n) && #[trigger] fm[n]@.contains(s) implies f1.contains_key(s)
                    && f1[s] == n by {
                    assert(fm0.contains_key(n) && fm0[n]@.contains(s));
                }
                assert forall|n: u64| #[trigger] fm.contains_key(n) implies exists|s: Pgid|
                    fm[n]@.contains(s) by {
                    if n != size {
                        assert(fm0.contains_key(n));
                        let s = choose|s: Pgid| fm0[n]@.contains(s);
                        assert(fm[n]@.contains(s));
                    }
                }
            }
            assert(self.inv_backward()) by {
                let bwd = self.backward_map@;
                let bwd0 = old(self).backward_map@;
                assert forall|s: Pgid| #[trigger] f1.contains_key(s) implies bwd.contains_key(
                    (s + f1[s] - 1) as u64,
                ) && bwd[(s + f1[s] - 1) as u64] == f1[s] by {
                    assert(fwd.contains_key(s) && fwd.contains_key(start));
                }
                assert forall|e: Pgid| #[trigger] bwd.contains_key(e) implies 1 <= bwd[e] <= e
                    && f1.contains_key((e + 1 - bwd[e]) as u64) && f1[(e + 1 - bwd[e]) as u64]
                    == bwd[e] by {
                    assert(bwd0.contains_key(e));
                }
            }
        }
    }

    proof fn lemma_end(&self, e: Pgid)
        requires
            self.inv(),
            e < u64::MAX,
        ensures
            self.backward_map@.contains_key(e) <==> self@.contains(e) && !self@.contains((e + 1) as u64),
            self.backward_map@.contains_key(e) ==> {
                let n = self.backward_map@[e];
                &&& 1 <= n <= e
                &&& self.forward_map@.contains_key((e + 1 - n) as u64)
                &&& self.forward_map@[(e + 1 - n) as u64] == n
            },
    {
        reveal(Spans::inv);
        reveal(Spans::view);
        let fwd = self.forward_map@;
        if self.backward_map@.contains_key(e) {
            let s = (e + 1 - self.backward_map@[e]) as u64;
            assert(fwd.contains_key(s) && s <= e < s + fwd[s]);
            if self@.contains((e + 1) as u64) {
                let t = choose|t: Pgid| #[trigger] fwd.contains_key(t) && t <= e + 1 < t + fwd[t];
                assert(fwd.contains_key(s));
            }
        }
        if self@.contains(e) && !self@.contains((e + 1) as u64) {
            let s = choose|s: Pgid| #[trigger] fwd.contains_key(s) && s <= e < s + fwd[s];
            if s + fwd[s] > e + 1 {
                assert(self@.contains((e + 1) as u64));
            }
        }
    }

    proof fn lemma_start(&self, s: Pgid)
        requires
            self.inv(),
            1 <= s,
        ensures
            self.forward_map@.contains_key(s) <==> self@.contains(s) && !self@.contains((s - 1) as u64),
            self.forward_map@.contains_key(s) ==> 1 <= self.forward_map@[s] && s + self.forward_map@[s]
                <= u64::MAX,
    {
        reveal(Spans::inv);
        reveal(Spans::view);
        let fwd = self.forward_map@;
        if fwd.contains_key(s) {
            assert(s <= s < s + fwd[s]);
            if self@.contains((s - 1) as u64) {
                let t = choose|t: Pgid| #[trigger] fwd.contains_key(t) && t <= s - 1 < t + fwd[t];
            }
        }
        if self@.contains(s) && !self@.contains((s - 1) as u64) {
            let t = choose|t: Pgid| #[trigger] fwd.contains_key(t) && t <= s < t + fwd[t];
            if t < s {
                assert(self@.contains((s - 1) as u64));
            }
        }
    }

    /// Takes out the span that ends just before `start`, if there is one, and returns where it
    /// started.
    fn absorb_left(&mut self, start: Pgid) -> (new_start: Pgid)
        requires
            old(self).inv(),
            1 <= start,
            !old(self)@.contains(start),
        ensures
            final(self).inv(),
            1 <= new_start <= start,
            final(self)@ == old(self)@.difference(id_range(new_start as int, start as int)),
            !final(self)@.contains((new_start - 1) as u64),
            is_run(old(self)@, new_start as int, start - new_start),
    {
        proof {
            self.lemma_end((start - 1) as u64);
        }
        let pre_size: Option<u64> = match self.backward_map.get(&(start - 1)) {
            Some(n) => Some(*n),
            None => None,
        };
        let mut new_start: Pgid = start;
        if let Some(pre) = pre_size {
            new_start = start - pre;
            self.del_span(new_start, pre);
        }
        assert(self@ =~= old(self)@.difference(id_range(new_start as int, start as int)));
        new_start
    }

    /// Takes out the span that starts at `next`, if there is one, and returns where it ended.
    fn absorb_right(&mut self, next: Pgid) -> (new_end: Pgid)
        requires
            old(self).inv(),
            1 <= next,
            !old(self)@.contains((next - 1) as u64),
        ensures
            final(self).inv(),
            next <= new_end,
            final(self)@ == old(self)@.difference(id_range(next as int, new_end as int)),
            !final(self)@.contains(new_end),
            is_run(old(self)@, next as int, new_end - next),
    {
        proof {
            self.lemma_start(next);
        }
        let next_size: Option<u64> = match self.forward_map.get(&next) {
            Some(n) => Some(*n),
            None => None,
        };
        let mut new_end: Pgid = next;
        if let Some(ns) = next_size {
            self.del_span(next, ns);
            new_end = next + ns;
        }
        assert(self@ =~= old(self)@.difference(id_range(next as int, new_end as int)));
        new_end
    }

    /// Adds the ids from `start` to `end`, joining them with the spans that they touch.
    pub fn merge_with_existing_span(&mut self, start: Pgid, end: Pgid)
        requires
            old(self).inv(),
            1 <= start <= end < u64::MAX,
            forall|p: Pgid| start <= p <= end ==> !(#[trigger] old(self)@.contains(p)),
        ensures
            final(self).inv(),
            final(self)@ == old(self)@.union(id_range(start as int, end + 1)),
    {
        let ghost s0 = self@;
        let new_start: Pgid = self.absorb_left(start);
        let new_end: Pgid = self.absorb_right(end + 1);
        self.add_span(new_start, new_end - new_start);
        assert(self@ =~= s0.union(id_range(start as int, end + 1)));
    }

    /// Adds a sorted list of ids, none of which is in the set.
    pub fn merge_sorted(&mut self, ids: &[Pgid])
        requires
            old(self).inv(),
            strictly_sorted(ids@),
            forall|p: Pgid| #[trigger] ids@.contains(p) ==> valid_id(p) && !old(self)@.contains(p),
        ensures
            final(self).inv(),
            final(self)@ == old(self)@.union(ids@.to_set()),
    {
        let ghost s0 = self@;
        let n: usize = ids.len();
        if n == 0 {
            assert(s0.union(ids@.to_set()) =~= s0);
            return;
        }
        assert(ids@.contains(ids@[0]));
        let mut start: Pgid = ids[0];
        let mut end: Pgid = ids[0];
        let mut i: usize = 1;
        assert(ids@.take(1).to_set() =~= id_range(start as int, end + 1)) by {
            assert(ids@.take(1)[0] == start);
        }
        assert(s0.union(ids@.take(1).to_set()) =~= s0.union(id_range(start as int, end + 1)));
        while i < n
            invariant
                1 <= i <= n,
                n == ids@.len(),
                self.inv(),
                strictly_sorted(ids@),
                forall|p: Pgid| #[trigger] ids@.contains(p) ==> valid_id(p) && !s0.contains(p),
                1 <= start <= end < u64::MAX,
                end == ids@[i - 1],
                forall|p: Pgid| #[trigger] self@.contains(p) ==> s0.contains(p) || p < start,
                forall|p: Pgid| start <= p <= end ==> !(#[trigger] s0.contains(p)),
                self@.union(id_range(start as int, end + 1)) =~= s0.union(ids@.take(i as int).to_set()),
            decreases n - i,
        {
            let id: Pgid = ids[i];
            assert(ids@.contains(ids@[i as int]));
            proof {
                assert(ids@.take(i + 1) =~= ids@.take(i as int).push(id));
                assert(ids@.take(i + 1).to_set() =~= ids@.take(i as int).to_set().insert(id)) by {
                    broadcast use vstd::seq_lib::group_seq_properties;
                }
            }
            let ghost before = self@.union(id_range(start as int, end + 1));
            if id == end + 1 {
                end = id;
            } else {
                self.merge_with_existing_span(start, end);
                start = id;
                end = id;
            }
            i = i + 1;
            assert(self@.union(id_range(start as int, end + 1)) =~= before.insert(id));
            assert(s0.union(ids@.take(i as int).to_set()) =~= before.insert(id));
        }
        self.merge_with_existing_span(start, end);
        assert(ids@.take(n as int) =~= ids@);
    }

    /// Takes `n` consecutive ids out of the set: a span of that size where there is one, else the
    /// first ids of a larger span. Returns the first id, or zero if no span is large enough.
    pub fn take(&mut self, n: u64) -> (pid: Pgid)
        requires
            old(self).inv(),
        ensures
            final(self).inv(),
            pid == 0 ==> final(self)@ == old(self)@ && (n == 0 || forall|s: int|
                !is_run(old(self)@, s, n as int)),
            pid != 0 ==> {
                &&& n > 0
                &&& is_run(old(self)@, pid as int, n as int)
                &&& !old(self)@.contains((pid - 1) as u64)
                &&& old(self)@.contains((pid + n) as u64) ==> forall|s: int|
                    !is_whole_run(old(self)@, s, n as int)
                &&& final(self)@ == old(self)@.difference(id_range(pid as int, pid + n))
            },
    {
        proof {
            reveal(Spans::inv);
            reveal(Spans::view);
        }
        if n == 0 {
            return 0;
        }
        let ghost fwd = self.forward_map@;
        let ghost s0 = self@;
        let exact: Option<u64> = match self.freemaps.get(&n) {
            Some(set) => any_of(set),
            None => None,
        };
        if let Some(pid) = exact {
            self.del_span(pid, n);
            return pid;
        }
        proof {
            assert forall|s: int| !is_whole_run(s0, s, n as int) by {
                if is_whole_run(s0, s, n as int) {
                    self.lemma_whole_run(s, n as int);
                    assert(self.freemaps@.contains_key(n));
                    assert(self.freemaps@[n]@.contains(s as u64));
                }
            }
        }
        let sizes: Vec<u64> = map_keys(&self.freemaps);
        let mut i: usize = 0;
        while i < sizes.len()
            invariant
                i <= sizes@.len(),
                self.inv(),
                *self == *old(self),
                s0 == self@,
                fwd == self.forward_map@,
                n > 0,
                forall|s: int| !is_whole_run(s0, s, n as int),
                forall|k: u64| #[trigger] sizes@.contains(k) <==> self.freemaps@.contains_key(k),
                forall|j: int| 0 <= j < i ==> sizes@[j] < n,
            decreases sizes@.len() - i,
        {
            proof {
                reveal(Spans::inv);
                reveal(Spans::view);
            }
            let size: u64 = sizes[i];
            assert(sizes@.contains(sizes@[i as int]));
            if size >= n {
                let found: Option<u64> = match self.freemaps.get(&size) {
                    Some(set) => any_of(set),
                    None => None,
                };
                if let Some(pid) = found {
                    self.del_span(pid, size);
                    let remain: u64 = size - n;
                    if remain > 0 {
                        self.add_span(pid + n, remain);
                    }
                    assert(self@ =~= s0.difference(id_range(pid as int, pid + n)));
                    return pid;
                }
                assert(false);
            }
            i = i + 1;
        }
        proof {
            assert forall|s: int| !is_run(s0, s, n as int) by {
                if is_run(s0, s, n as int) {
                    assert(s0.contains(s as u64));
                    let t = choose|t: Pgid| #[trigger] fwd.contains_key(t) && t <= s < t + fwd[t];
                    assert(sizes@.contains(fwd[t]));
                    let last = s + n - 1;
                    if last >= t + fwd[t] {
                        let e = (t + fwd[t]) as u64;
                        assert(s0.contains(e));
                        let u = choose|u: Pgid| #[trigger] fwd.contains_key(u) && u <= e < u + fwd[u];
                    }
                }
            }
        }
        0
    }

    proof fn lemma_whole_run(&self, s: int, n: int)
        requires
            self.inv(),
            is_whole_run(self@, s, n),
        ensures
            self.forward_map@.contains_key(s as u64),
            self.forward_map@[s as u64] == n,
    {
        reveal(Spans::inv);
        reveal(Spans::view);
        let fwd = self.forward_map@;
        assert(self@.contains(s as u64));
        let t = choose|t: Pgid| #[trigger] fwd.contains_key(t) && t <= s < t + fwd[t];
        if t < s {
            assert(self@.contains((s - 1) as u64));
        }
        if fwd[t] < n {
            let e = (t + fwd[t]) as u64;
            assert(self@.contains(e));
            let u = choose|u: Pgid| #[trigger] fwd.contains_key(u) && u <= e < u + fwd[u];
        }
        if fwd[t] > n {
            assert(self@.contains((s + n) as u64));
        }
    }

    /// The ids of the set, sorted.
    pub fn to_ids(&self) -> (ids: Vec<Pgid>)
        requires
            self.inv(),
        ensures
            strictly_sorted(ids@),
            ids@.to_set() == self@,
            ids@.len() == self@.len(),
    {
        proof {
            reveal(Spans::inv);
            reveal(Spans::view);
        }
        let ghost fwd = self.forward_map@;
        let keys: Vec<Pgid> = map_keys(&self.forward_map);
        let starts: Vec<Pgid> = sort_pgids(keys.as_slice());
        proof {
            lemma_same_elements(starts@, keys@);
            lemma_sorted_distinct(starts@);
        }
        let mut ids: Vec<Pgid> = Vec::new();
        let mut k: usize = 0;
        while k < starts.len()
            invariant
                k <= starts@.len(),
                self.inv(),
                fwd == self.forward_map@,
                strictly_sorted(starts@),
                forall|s: Pgid| #[trigger] starts@.contains(s) <==> fwd.contains_key(s),
                strictly_sorted(ids@),
                forall|p: Pgid| #[trigger] ids@.contains(p) <==> exists|j: int|
                    0 <= j < k && (#[trigger] starts@[j]) <= p < starts@[j] + fwd[starts@[j]],
                k < starts@.len() ==> forall|j: int| 0 <= j < ids@.len() ==> ids@[j] < starts@[k as int],
            decreases starts@.len() - k,
        {
            proof {
                reveal(Spans::inv);
            }
            let start: Pgid = starts[k];
            assert(starts@.contains(starts@[k as int]));
            let size: u64 = *self.forward_map.get(&start).unwrap();
            let ghost before = ids@;
            let mut i: u64 = 0;
            while i < size
                invariant
                    i <= size,
                    start + size <= u64::MAX,
                    ids@ == before + Seq::new(i as nat, |j: int| (start + j) as u64),
                decreases size - i,
            {
                ids.push(start + i);
                i = i + 1;
                assert(ids@ =~= before + Seq::new(i as nat, |j: int| (start + j) as u64));
            }
            proof {
                let add = Seq::new(size as nat, |j: int| (start + j) as u64);
                assert forall|p: Pgid| #[trigger] ids@.contains(p) <==> exists|j: int|
                    0 <= j < k + 1 && (#[trigger] starts@[j]) <= p < starts@[j] + fwd[starts@[j]] by {
                    if ids@.contains(p) {
                        let m = ids@.index_of(p);
                        if m < before.len() {
                            assert(before[m] == p);
                            assert(before.contains(p));
                        } else {
                            assert(ids@[m] == add[m - before.len()]);
                            assert(starts@[k as int] <= p < starts@[k as int] + fwd[starts@[k as int]]);
                        }
                    }
                    if start <= p < start + size {
                        assert(ids@[before.len() + (p - start)] == p);
                    }
                    if before.contains(p) {
                        assert(ids@[before.index_of(p)] == p);
                    }
                }
                assert forall|j: int| 0 <= j < ids@.len() && k + 1 < starts@.len() implies ids@[j]
                    < starts@[k + 1] by {
                    assert(starts@.contains(starts@[k + 1]));
                    assert(starts@[k as int] < starts@[k + 1]);
                }
            }
            k = k + 1;
        }
        proof {
            assert forall|p: Pgid| ids@.to_set().contains(p) <==> self@.contains(p) by {
                if self@.contains(p) {
                    let s = choose|s: Pgid| #[trigger] fwd.contains_key(s) && s <= p < s + fwd[s];
                    assert(starts@.contains(s));
                    let j = starts@.index_of(s);
                    assert(starts@[j] <= p < starts@[j] + fwd[starts@[j]]);
                }
                if ids@.contains(p) {
                    let j = choose|j: int|
                        0 <= j < k && (#[trigger] starts@[j]) <= p < starts@[j] + fwd[starts@[j]];
                    assert(starts@.contains(starts@[j]));
                }
            }
            assert(ids@.to_set() =~= self@);
            ids@.unique_seq_to_set();
        }
        ids
    }
}

} // verus!
