//! Keys, values and orders for measuring.
use vstd::prelude::*;
use vstd::arithmetic::power2::{lemma2_to64, lemma2_to64_rest, lemma_pow2_adds, lemma_pow2_pos, pow2};

verus! {

/// The key of number `i`: the number with its most significant byte first.
pub open spec fn bench_key(len: nat, i: u64) -> Seq<u8> {
    Seq::new(len, |j: int| ((i as nat / pow2((8 * (len - 1 - j)) as nat)) % 256) as u8)
}

/// Fills a buffer with the key of number `i`.
pub fn make_key(buf: &mut Vec<u8>, i: u64)
    requires
        old(buf)@.len() >= 8,
    ensures
        final(buf)@ == bench_key(old(buf)@.len(), i),
{
    let n: usize = buf.len();
    let mut rest: u64 = i;
    let mut j: usize = n;
    proof {
        lemma2_to64();
        assert(pow2((8 * (n - j)) as nat) == 1);
        vstd::arithmetic::div_mod::lemma_div_basics(i as int);
    }
    while j > 0
        invariant
            j <= n,
            n >= 8,
            buf@.len() == n,
            rest as nat == i as nat / pow2((8 * (n - j)) as nat),
            forall|k: int| j <= k < n ==> buf@[k] == bench_key(n as nat, i)[k],
        decreases j,
    {
        let ghost k = (n - j) as nat;
        proof {
            lemma_next_byte(i as nat, k);
        }
        j = j - 1;
        let byte: u8 = (rest % 256) as u8;
        buf.set(j, byte);
        rest = rest / 256;
    }
    assert(buf@ =~= bench_key(n as nat, i));
}

proof fn lemma_next_byte(i: nat, k: nat)
    ensures
        i / pow2((8 * k + 8) as nat) == (i / pow2(8 * k)) / 256,
{
    lemma_pow2_adds(8 * k, 8);
    lemma2_to64();
    lemma_pow2_pos(8 * k);
    vstd::arithmetic::div_mod::lemma_div_denominator(
        i as int,
        pow2(8 * k) as int,
        256,
    );
}

/// Fills a buffer with the value of number `i`: bytes that count up from it.
pub fn make_val(buf: &mut Vec<u8>, i: u64)
    requires
        i + old(buf)@.len() <= u64::MAX,
    ensures
        final(buf)@ == Seq::new(old(buf)@.len(), |j: int| ((i + j) % 256) as u8),
{
    let n: usize = buf.len();
    let mut j: usize = 0;
    while j < n
        invariant
            j <= n,
            buf@.len() == n,
            i + n <= u64::MAX,
            forall|k: int| 0 <= k < j ==> buf@[k] == ((i + k) % 256) as u8,
        decreases n - j,
    {
        let byte: u8 = ((i + j as u64) % 256) as u8;
        buf.set(j, byte);
        j = j + 1;
    }
    assert(buf@ =~= Seq::new(n as nat, |j: int| ((i + j) % 256) as u8));
}

/// A generator of numbers.
pub struct XorShift64 {
    pub state: u64,
}

/// The number after `x`.
pub open spec fn next_number(x: u64) -> u64 {
    let a = x ^ (x << 13);
    let b = a ^ (a >> 7);
    b ^ (b << 17)
}

/// The state after `k` more numbers.
pub open spec fn state_after(x: u64, k: nat) -> u64
    decreases k,
{
    if k == 0 {
        x
    } else {
        next_number(state_after(x, (k - 1) as nat))
    }
}

/// The numbers below `n` after the last `k` places were filled: place after place from the end is
/// exchanged with one that is not behind it.
pub open spec fn shuffled(x: u64, n: nat, k: nat) -> Seq<usize>
    decreases k,
{
    if k == 0 {
        Seq::new(n, |i: int| i as usize)
    } else {
        let v = shuffled(x, n, (k - 1) as nat);
        let i = n - k;
        let j = (state_after(x, k) as int) % (i + 1);
        v.update(i, v[j]).update(j, v[i])
    }
}

impl XorShift64 {
    pub fn new(seed: u64) -> (g: Self)
        ensures
            g.state == seed | 1,
    {
        XorShift64 { state: seed | 1 }
    }

    /// The next number.
    pub fn next_u64(&mut self) -> (x: u64)
        ensures
            x == next_number(old(self).state),
            final(self).state == x,
    {
        let mut x: u64 = self.state;
        x = x ^ (x << 13);
        x = x ^ (x >> 7);
        x = x ^ (x << 17);
        self.state = x;
        x
    }

    /// The numbers below `n` in some order.
    pub fn perm(&mut self, n: usize) -> (v: Vec<usize>)
        requires
            n <= u64::MAX,
        ensures
            v@ == shuffled(old(self).state, n as nat, if n > 0 { (n - 1) as nat } else { 0 }),
            v@.to_multiset() == Seq::new(n as nat, |i: int| i as usize).to_multiset(),
            final(self).state == state_after(old(self).state, if n > 0 { (n - 1) as nat } else { 0 }),
    {
        let ghost x = self.state;
        let mut v: Vec<usize> = Vec::new();
        let mut i: usize = 0;
        while i < n
            invariant
                i <= n,
                v@ == Seq::new(i as nat, |i: int| i as usize),
            decreases n - i,
        {
            v.push(i);
            i = i + 1;
            assert(v@ =~= Seq::new(i as nat, |i: int| i as usize));
        }
        if n == 0 {
            return v;
        }
        let mut i: usize = n - 1;
        while i >= 1
            invariant
                i < n,
                v@.len() == n,
                v@ == shuffled(x, n as nat, (n - 1 - i) as nat),
                v@.to_multiset() == Seq::new(n as nat, |i: int| i as usize).to_multiset(),
                self.state == state_after(x, (n - 1 - i) as nat),
            decreases i,
        {
            let j: usize = (self.next_u64() % (i as u64 + 1)) as usize;
            let ghost v0 = v@;
            let a: usize = v[i];
            let b: usize = v[j];
            v.set(i, b);
            v.set(j, a);
            proof {
                lemma_exchanged(v0, i as int, j as int);
            }
            i = i - 1;
        }
        v
    }
}

/// Exchanging two elements keeps all elements.
proof fn lemma_exchanged(s: Seq<usize>, i: int, j: int)
    requires
        0 <= i < s.len(),
        0 <= j < s.len(),
    ensures
        s.update(i, s[j]).update(j, s[i]).to_multiset() == s.to_multiset(),
{
    broadcast use vstd::seq_lib::group_to_multiset_ensures;

    let t = s.update(i, s[j]);
    assert(t.to_multiset() =~= s.to_multiset().insert(s[j]).remove(s[i]));
    if i == j {
        assert(t.update(j, s[i]) =~= s);
    } else {
        assert(t.update(j, s[i]).to_multiset() =~= t.to_multiset().insert(s[i]).remove(s[j]));
        assert(s.to_multiset().count(s[i]) > 0);
        assert(t.update(j, s[i]).to_multiset() =~= s.to_multiset());
    }
}

/// The number that bytes are, the one of most weight first.
pub open spec fn big_number(key: Seq<u8>) -> nat
    decreases key.len(),
{
    if key.len() == 0 {
        0
    } else {
        256 * big_number(key.drop_last()) + key.last() as nat
    }
}

proof fn lemma_big_number(len: nat, i: u64, k: nat)
    requires
        k <= len,
    ensures
        big_number(bench_key(len, i).take(k as int)) == (i as nat / pow2((8 * (len - k)) as nat)) % pow2(8 * k),
    decreases k,
{
    let key = bench_key(len, i);
    lemma2_to64();
    if k == 0 {
        assert(key.take(0) =~= Seq::<u8>::empty());
    } else {
        let j = (k - 1) as nat;
        let m = (len - k) as nat;
        let n = i as nat / pow2(8 * m);
        lemma_big_number(len, i, j);
        lemma_next_byte(i as nat, m);
        assert(key.take(k as int).drop_last() =~= key.take(j as int));
        assert(key.take(k as int).last() == key[j as int]);
        assert(key[j as int] == (n % 256) as u8);
        lemma_pow2_adds(8, 8 * j);
        lemma_pow2_pos(8 * j);
        let p = pow2(8 * j) as int;
        lemma_pow2_pos(8 * m);
        vstd::arithmetic::div_mod::lemma_div_pos_is_pos(i as int, pow2(8 * m) as int);
        vstd::arithmetic::div_mod::lemma_mod_breakdown(n as int, 256, p);
    }
}

/// The key of a number is that number, with the byte of most weight first and zeros before it.
pub proof fn lemma_bench_key(len: nat, i: u64)
    requires
        len >= 8,
    ensures
        bench_key(len, i).len() == len,
        big_number(bench_key(len, i)) == i,
{
    lemma_big_number(len, i, len);
    assert(bench_key(len, i).take(len as int) =~= bench_key(len, i));
    lemma2_to64();
    lemma_pow2_pos(8 * len);
    if len > 8 {
        vstd::arithmetic::power2::lemma_pow2_strictly_increases(64, 8 * len);
    }
    lemma2_to64_rest();
    assert(i as nat / 1 == i as nat);
    vstd::arithmetic::div_mod::lemma_small_mod(i as nat, pow2(8 * len));
}

} // verus!
