//! The set of pages that may be allocated, in one of two representations.
use vstd::prelude::*;
use crate::page::Pgid;
use crate::pgids::{lemma_merge_contains, lemma_merge_strict, lemma_same_elements, lemma_sorted_distinct, merge_pgids, sort_pgids, strictly_sorted};
use crate::spans::{id_range, is_run, is_whole_run, valid_id, Spans};

verus! {

/// How the free pages are indexed.
#[derive(Clone, Copy, Debug, PartialEq, Eq, Structural)]
pub enum FreelistType {
    /// A sorted array of free page ids (the default).
    Array,
    /// Spans in hash maps; faster under fragmentation.
    HashMap,
}

impl Default for FreelistType {
    fn default() -> (t: Self)
        ensures
            t == FreelistType::Array,
    {
        FreelistType::Array
    }
}

/// Removes the elements from `a` up to but not including `b`.
fn remove_range(ids: &mut Vec<Pgid>, a: usize, b: usize)
    requires
        a <= b <= old(ids)@.len(),
    ensures
        final(ids)@ == old(ids)@.subrange(0, a as int) + old(ids)@.subrange(b as int, old(ids)@.len() as int),
{
    let ghost s0 = ids@;
    let mut tail: Vec<Pgid> = ids.split_off(b);
    ids.truncate(a);
    ids.append(&mut tail);
    assert(ids@ =~= s0.subrange(0, a as int) + s0.subrange(b as int, s0.len() as int));
}

/// Removing the part of a strictly sorted list that holds a run of ids removes just that run.
proof fn lemma_remove_run(s: Seq<Pgid>, i: int, n: int)
    requires
        strictly_sorted(s),
        0 < n <= i + 1,
        i < s.len(),
        s[i + 1 - n] + n - 1 == s[i],
    ensures
        ({
            let t = s.subrange(0, i + 1 - n) + s.subrange(i + 1, s.len() as int);
            &&& strictly_sorted(t)
            &&& t.to_set() == s.to_set().difference(id_range(s[i + 1 - n] as int, s[i] + 1))
        }),
{
    let t = s.subrange(0, i + 1 - n) + s.subrange(i + 1, s.len() as int);
    assert forall|p: Pgid| t.to_set().contains(p) <==> s.to_set().difference(
        id_range(s[i + 1 - n] as int, s[i] + 1),
    ).contains(p) by {
        if t.contains(p) {
            let k = t.index_of(p);
            let j = if k < i + 1 - n { k } else { k + n };
            assert(s[j] == p);
            assert(s.contains(p));
            if k < i + 1 - n {
                assert(s[k] < s[i + 1 - n]);
            } else {
                assert(s[i] < s[j]);
            }
        }
        if s.contains(p) && !(s[i + 1 - n] <= p <= s[i]) {
            let j = s.index_of(p);
            if j < i + 1 - n {
                assert(t[j] == p);
            } else if j > i {
                assert(t[j - n] == p);
            } else {
                assert(s[i + 1 - n] <= s[j] <= s[i]);
            }
        }
    }
    assert(t.to_set() =~= s.to_set().difference(id_range(s[i + 1 - n] as int, s[i] + 1)));
}

/// A set of page ids.
pub struct FreeSet {
    kind: FreelistType,
    ids: Vec<Pgid>,
    spans: Spans,
}

impl FreeSet {
    /// The ids in the set.
    pub closed spec fn view(&self) -> Set<Pgid> {
        if self.kind == FreelistType::Array {
            self.ids@.to_set()
        } else {
            self.spans@
        }
    }

    /// How the set is represented.
    pub closed spec fn spec_kind(&self) -> FreelistType {
        self.kind
    }

    /// The representation is sound.
    pub closed spec fn inv(&self) -> bool {
        &&& self.kind == FreelistType::Array ==> strictly_sorted(self.ids@) && forall|i: int|
            0 <= i < self.ids@.len() ==> valid_id(#[trigger] self.ids@[i])
        &&& self.kind == FreelistType::HashMap ==> self.spans.inv()
    }

    /// The set is finite and holds ids that a page can have.
    pub proof fn lemma_ids(&self)
        requires
            self.inv(),
        ensures
            self@.finite(),
            forall|p: Pgid| #[trigger] self@.contains(p) ==> valid_id(p),
    {
        if self.kind == FreelistType::HashMap {
            self.spans.lemma_ids();
        }
    }

    /// An empty set.
    pub fn new(kind: FreelistType) -> (f: Self)
        ensures
            f.inv(),
            f.spec_kind() == kind,
            f@ == Set::<Pgid>::empty(),
    {
        let f = FreeSet { kind, ids: Vec::new(), spans: Spans::new() };
        assert(f@ =~= Set::<Pgid>::empty());
        f
    }

    /// How the set is represented.
    pub fn kind(&self) -> (k: FreelistType)
        ensures
            k == self.spec_kind(),
    {
        self.kind
    }

    /// The number of ids in the set.
    pub fn count(&self) -> (n: u64)
        requires
            self.inv(),
        ensures
            n == self@.len(),
    {
        match self.kind {
            FreelistType::Array => {
                proof {
                    self.ids@.unique_seq_to_set();
                }
                self.ids.len() as u64
            },
            FreelistType::HashMap => self.spans.count(),
        }
    }

    /// The ids, sorted.
    pub fn to_ids(&self) -> (ids: Vec<Pgid>)
        requires
            self.inv(),
        ensures
            strictly_sorted(ids@),
            ids@.to_set() == self@,
            ids@.len() == self@.len(),
    {
        match self.kind {
            FreelistType::Array => {
                proof {
                    self.ids@.unique_seq_to_set();
                }
                let ids: Vec<Pgid> = self.ids.clone();
                assert(ids@ =~= self.ids@);
                ids
            },
            FreelistType::HashMap => self.spans.to_ids(),
        }
    }

    /// Adds ids, none of which is in the set yet.
    pub fn merge_spans(&mut self, more: Vec<Pgid>)
        requires
            old(self).inv(),
            more@.no_duplicates(),
            forall|p: Pgid| #[trigger] more@.contains(p) ==> valid_id(p) && !old(self)@.contains(p),
        ensures
            final(self).inv(),
            final(self).spec_kind() == old(self).spec_kind(),
            final(self)@ == old(self)@.union(more@.to_set()),
    {
        let ghost s0 = self@;
        let sorted: Vec<Pgid> = sort_pgids(more.as_slice());
        proof {
            lemma_same_elements(sorted@, more@);
            lemma_sorted_distinct(sorted@);
            assert(sorted@.to_set() =~= more@.to_set());
        }
        match self.kind {
            FreelistType::Array => {
                let ids: Vec<Pgid> = merge_pgids(self.ids.as_slice(), sorted.as_slice());
                proof {
                    assert forall|x: Pgid| self.ids@.contains(x) implies !sorted@.contains(x) by {
                        assert(self@.contains(x));
                    }
                    lemma_merge_strict(self.ids@, sorted@);
                    lemma_merge_contains(self.ids@, sorted@);
                    assert forall|i: int| 0 <= i < ids@.len() implies valid_id(#[trigger] ids@[i]) by {
                        assert(ids@.contains(ids@[i]));
                        if self.ids@.contains(ids@[i]) {
                            let j = self.ids@.index_of(ids@[i]);
                            assert(valid_id(self.ids@[j]));
                        }
                    }
                }
                self.ids = ids;
                assert(self@ =~= s0.union(more@.to_set()));
            },
            FreelistType::HashMap => {
                self.spans.merge_sorted(sorted.as_slice());
            },
        }
    }

    /// Makes the set hold just the given ids.
    pub fn init(&mut self, ids: Vec<Pgid>)
        requires
            strictly_sorted(ids@),
            forall|p: Pgid| #[trigger] ids@.contains(p) ==> valid_id(p),
        ensures
            final(self).inv(),
            final(self).spec_kind() == old(self).spec_kind(),
            final(self)@ == ids@.to_set(),
    {
        match self.kind {
            FreelistType::Array => {
                assert forall|i: int| 0 <= i < ids@.len() implies valid_id(#[trigger] ids@[i]) by {
                    assert(ids@.contains(ids@[i]));
                }
                self.ids = ids;
            },
            FreelistType::HashMap => {
                let mut spans = Spans::new();
                spans.merge_sorted(ids.as_slice());
                assert(spans@ =~= ids@.to_set());
                self.spans = spans;
            },
        }
    }

    /// Takes the first run of `n` ids out of the sorted array.
    fn array_take(&mut self, n: u64) -> (pid: Pgid)
        requires
            old(self).inv(),
            old(self).kind == FreelistType::Array,
            !old(self)@.contains(1),
        ensures
            final(self).inv(),
            final(self).spec_kind() == old(self).spec_kind(),
            pid == 0 ==> final(self)@ == old(self)@ && (n == 0 || forall|s: int|
                !is_run(old(self)@, s, n as int)),
            pid != 0 ==> {
                &&& n > 0
                &&& is_run(old(self)@, pid as int, n as int)
                &&& forall|s: int| s < pid ==> !is_run(old(self)@, s, n as int)
                &&& final(self)@ == old(self)@.difference(id_range(pid as int, pid + n))
            },
    {
        let mut initial: Pgid = 0;
        let mut prev: Pgid = 0;
        let ghost free = self@;
        let len: usize = self.ids.len();
        let mut i: usize = 0;
        while i < len
            invariant
                i <= len,
                self.inv(),
                self.kind == FreelistType::Array,
                self@ == free,
                *self == *old(self),
                len == self.ids@.len(),
                i == 0 ==> prev == 0 && initial == 0,
                i > 0 ==> {
                    &&& prev == self.ids@[i - 1]
                    &&& 0 < initial <= prev
                    &&& prev - initial + 1 <= i
                    &&& self.ids@[i - 1 - (prev - initial)] == initial
                    &&& !free.contains((initial - 1) as u64)
                    &&& n > 0 ==> prev - initial + 1 < n
                    &&& n > 0 ==> forall|s: int| #[trigger] is_run(free, s, n as int) ==> s + n - 1 > prev
                },
            decreases len - i,
        {
            let id: Pgid = self.ids[i];
            assert(valid_id(self.ids@[i as int]));
            assert(i > 0 ==> self.ids@[i - 1] < self.ids@[i as int]);
            let ghost before = initial;
            if prev == 0 || id - prev != 1 {
                proof {
                    assert(i > 0 ==> valid_id(self.ids@[i - 1]));
                    if free.contains((id - 1) as u64) {
                        let j = self.ids@.index_of((id - 1) as u64);
                        assert(j < i) by {
                            if j >= i {
                                assert(self.ids@[j] >= self.ids@[i as int]);
                            }
                        }
                        if i > 0 && j < i - 1 {
                            assert(self.ids@[j] < self.ids@[i - 1]);
                        }
                        assert(false);
                    }
                }
                initial = id;
            }
            proof {
                if n > 0 {
                    assert forall|s: int| is_run(free, s, n as int) && s + n - 1 <= id implies s == id - n + 1 && id
                        - initial + 1 == n by {
                        let last = (s + n - 1) as u64;
                        assert(free.contains(last));
                        let j = self.ids@.index_of(last);
                        if j < i {
                            if j < i - 1 {
                                assert(self.ids@[j] < self.ids@[i - 1]);
                            }
                            assert(false);
                        }
                        if j > i {
                            assert(self.ids@[i as int] < self.ids@[j]);
                        }
                        assert(last == id);
                        if s < initial {
                            assert(free.contains((initial - 1) as u64));
                        }
                    }
                }
            }
            if n > 0 && id - initial == n - 1 {
                let a: usize = i + 1 - n as usize;
                proof {
                    assert(self.ids@[a as int] == initial) by {
                        if initial == id {
                            assert(a == i);
                        } else {
                            assert(a == i - 1 - (prev - initial));
                        }
                    }
                    assert forall|p: Pgid| initial <= p < initial + n implies #[trigger] free.contains(p) by {
                        lemma_run_indices(self.ids@, a as int, i as int, p);
                    }
                    assert(is_run(free, initial as int, n as int));
                    lemma_remove_run(self.ids@, i as int, n as int);
                    assert forall|s: int| s < initial implies !is_run(free, s, n as int) by {
                        if is_run(free, s, n as int) {
                            assert(s + n - 1 <= id);
                        }
                    }
                    assert forall|j: int| 0 <= j < self.ids@.len() implies valid_id(#[trigger] self.ids@[j]) by {
                    }
                }
                remove_range(&mut self.ids, a, i + 1);
                return initial;
            }
            prev = id;
            proof {
                if n > 0 {
                    assert forall|s: int| #[trigger] is_run(free, s, n as int) implies s + n - 1 > prev by {
                        if s + n - 1 <= id {
                            assert(id - initial + 1 == n);
                        }
                    }
                }
            }
            i = i + 1;
        }
        proof {
            if n > 0 {
                assert forall|s: int| !is_run(free, s, n as int) by {
                    if is_run(free, s, n as int) {
                        let last = (s + n - 1) as u64;
                        assert(free.contains(last));
                        let j = self.ids@.index_of(last);
                        if j < i - 1 {
                            assert(self.ids@[j] < self.ids@[i - 1]);
                        }
                    }
                }
            }
        }
        0
    }

    /// Takes a run of `n` ids out of the set and returns its first id, or zero where there is no
    /// such run. The array gives the lowest run. The spans give a run at the start of a span, of
    /// one of length `n` if there is any.
    pub fn take(&mut self, n: u64) -> (pid: Pgid)
        requires
            old(self).inv(),
            old(self).spec_kind() == FreelistType::Array ==> !old(self)@.contains(1),
        ensures
            final(self).inv(),
            final(self).spec_kind() == old(self).spec_kind(),
            pid == 0 ==> final(self)@ == old(self)@ && (n == 0 || forall|s: int|
                !is_run(old(self)@, s, n as int)),
            pid != 0 ==> {
                &&& n > 0
                &&& taken(old(self).spec_kind(), old(self)@, pid, n as int)
                &&& final(self)@ == old(self)@.difference(id_range(pid as int, pid + n))
            },
    {
        match self.kind {
            FreelistType::Array => self.array_take(n),
            FreelistType::HashMap => self.spans.take(n),
        }
    }
}

/// Which run of `n` ids an allocation takes: `pid` is the first id of it.
pub open spec fn taken(kind: FreelistType, free: Set<Pgid>, pid: Pgid, n: int) -> bool {
    &&& is_run(free, pid as int, n)
    &&& match kind {
        FreelistType::Array => forall|s: int| s < pid ==> !is_run(free, s, n),
        FreelistType::HashMap => {
            &&& !free.contains((pid - 1) as u64)
            &&& free.contains((pid + n) as u64) ==> forall|s: int| !is_whole_run(free, s, n)
        },
    }
}

/// In a strictly sorted list two ids as far apart as their places have all ids between them.
proof fn lemma_run_indices(s: Seq<Pgid>, a: int, b: int, p: Pgid)
    requires
        strictly_sorted(s),
        0 <= a <= b < s.len(),
        s[b] - s[a] == b - a,
        s[a] <= p <= s[b],
    ensures
        s.contains(p),
    decreases b - a,
{
    if p == s[b] {
    } else {
        assert(s[b - 1] < s[b]);
        lemma_gap(s, a, b - 1);
        lemma_run_indices(s, a, b - 1, p);
    }
}

/// Ids of a strictly sorted list are at least as far apart as their places.
proof fn lemma_gap(s: Seq<Pgid>, a: int, b: int)
    requires
        strictly_sorted(s),
        0 <= a <= b < s.len(),
    ensures
        s[b] - s[a] >= b - a,
    decreases b - a,
{
    if a < b {
        lemma_gap(s, a, b - 1);
        assert(s[b - 1] < s[b]);
    }
}

} // verus!
