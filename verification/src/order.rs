//! The order of keys: byte by byte, a prefix before what it is a prefix of.
use vstd::prelude::*;

verus! {

/// `a` comes before `b`.
#[verifier::opaque]
pub open spec fn less(a: Seq<u8>, b: Seq<u8>) -> bool
    decreases a.len(),
{
    if b.len() == 0 {
        false
    } else if a.len() == 0 {
        true
    } else if a[0] != b[0] {
        a[0] < b[0]
    } else {
        less(a.drop_first(), b.drop_first())
    }
}

/// `a` does not come after `b`.
pub open spec fn less_eq(a: Seq<u8>, b: Seq<u8>) -> bool {
    less(a, b) || a == b
}

/// No key comes before itself.
pub broadcast proof fn lemma_irreflexive(a: Seq<u8>)
    ensures
        !(#[trigger] less(a, a)),
    decreases a.len(),
{
    reveal(less);
    if a.len() > 0 {
        lemma_irreflexive(a.drop_first());
    }
}

/// The order is transitive.
pub broadcast proof fn lemma_transitive(a: Seq<u8>, b: Seq<u8>, c: Seq<u8>)
    requires
        #[trigger] less(a, b),
        #[trigger] less(b, c),
    ensures
        less(a, c),
    decreases a.len(),
{
    reveal(less);
    if a.len() > 0 && a[0] == b[0] && b[0] == c[0] {
        lemma_transitive(a.drop_first(), b.drop_first(), c.drop_first());
    }
}

/// Of two different keys one comes before the other.
pub proof fn lemma_total(a: Seq<u8>, b: Seq<u8>)
    ensures
        less(a, b) || a == b || less(b, a),
    decreases a.len(),
{
    reveal(less);
    if a.len() == 0 && b.len() == 0 {
        assert(a =~= b);
    } else if a.len() > 0 && b.len() > 0 && a[0] == b[0] {
        lemma_total(a.drop_first(), b.drop_first());
        if a.drop_first() == b.drop_first() {
            assert(a =~= seq![a[0]] + a.drop_first());
            assert(b =~= seq![b[0]] + b.drop_first());
        }
    }
}

/// Not both of two keys come before the other.
pub broadcast proof fn lemma_asymmetric(a: Seq<u8>, b: Seq<u8>)
    requires
        #[trigger] less(a, b),
    ensures
        !less(b, a),
        a != b,
{
    lemma_irreflexive(a);
    if less(b, a) {
        lemma_transitive(a, b, a);
    }
}

pub broadcast group group_order {
    lemma_irreflexive,
    lemma_transitive,
    lemma_asymmetric,
}

proof fn lemma_skip(a: Seq<u8>, b: Seq<u8>, i: int)
    requires
        0 <= i <= a.len(),
        i <= b.len(),
        forall|j: int| 0 <= j < i ==> a[j] == b[j],
    ensures
        less(a, b) == less(a.skip(i), b.skip(i)),
    decreases i,
{
    if i == 0 {
        assert(a.skip(0) =~= a);
        assert(b.skip(0) =~= b);
    } else {
        reveal(less);
        lemma_skip(a.drop_first(), b.drop_first(), i - 1);
        assert(a.drop_first().skip(i - 1) =~= a.skip(i));
        assert(b.drop_first().skip(i - 1) =~= b.skip(i));
    }
}

/// The order is that of the first byte in which two keys differ, as a number from 0 to 255. If there
/// is none, the shorter key comes first.
pub proof fn lemma_lexicographic(a: Seq<u8>, b: Seq<u8>, i: int)
    requires
        0 <= i <= a.len(),
        i <= b.len(),
        forall|j: int| 0 <= j < i ==> a[j] == b[j],
    ensures
        i < a.len() && i < b.len() && (a[i] as int) < (b[i] as int) ==> less(a, b) && !less(b, a) && a != b,
        i == a.len() && i < b.len() ==> less(a, b) && !less(b, a) && a != b,
        i == a.len() && i == b.len() ==> a == b && !less(a, b) && !less(b, a),
{
    lemma_skip(a, b, i);
    lemma_skip(b, a, i);
    reveal(less);
    if i == a.len() && i == b.len() {
        assert(a =~= b);
    }
}

/// Of two keys in order the first one is a beginning of the second one, or has a smaller byte where
/// they begin to differ.
pub proof fn lemma_first_difference(a: Seq<u8>, b: Seq<u8>) -> (i: int)
    requires
        less(a, b),
    ensures
        0 <= i <= a.len(),
        i < b.len(),
        forall|j: int| 0 <= j < i ==> a[j] == b[j],
        i == a.len() || (a[i] as int) < (b[i] as int),
    decreases a.len(),
{
    reveal(less);
    if a.len() == 0 || a[0] != b[0] {
        0
    } else {
        let k = lemma_first_difference(a.drop_first(), b.drop_first());
        assert forall|j: int| 0 <= j < k + 1 implies a[j] == b[j] by {
            if j > 0 {
                assert(a.drop_first()[j - 1] == b.drop_first()[j - 1]);
            }
        }
        k + 1
    }
}

/// Whether `a` comes before `b`.
pub fn key_less(a: &[u8], b: &[u8]) -> (r: bool)
    ensures
        r == less(a@, b@),
{
    let mut i: usize = 0;
    while i < a.len() && i < b.len() && a[i] == b[i]
        invariant
            i <= a@.len(),
            i <= b@.len(),
            forall|j: int| 0 <= j < i ==> a@[j] == b@[j],
        decreases a@.len() - i,
    {
        i = i + 1;
    }
    proof {
        lemma_skip(a@, b@, i as int);
        reveal(less);
    }
    if i >= b.len() {
        false
    } else if i >= a.len() {
        true
    } else {
        a[i] < b[i]
    }
}

/// Whether two keys are the same.
pub fn key_equal(a: &[u8], b: &[u8]) -> (r: bool)
    ensures
        r == (a@ == b@),
{
    if a.len() != b.len() {
        return false;
    }
    let mut i: usize = 0;
    while i < a.len()
        invariant
            i <= a@.len(),
            a@.len() == b@.len(),
            forall|j: int| 0 <= j < i ==> a@[j] == b@[j],
        decreases a@.len() - i,
    {
        if a[i] != b[i] {
            assert(a@[i as int] != b@[i as int]);
            return false;
        }
        i = i + 1;
    }
    assert(a@ =~= b@);
    true
}

} // verus!
