//! Text forms of numbers and byte strings.
use vstd::prelude::*;

verus! {

/// The hexadecimal digit of `d`, in lower case.
pub open spec fn hex_digit(d: nat) -> char {
    if d < 10 {
        (('0' as int) + d) as char
    } else {
        (('a' as int) + d - 10) as char
    }
}

/// The digits of `n` in base `base`, with no leading zero; zero is one digit.
pub open spec fn digits(n: nat, base: nat) -> Seq<char>
    decreases n,
{
    if base < 2 || n < base {
        seq![hex_digit(n)]
    } else {
        proof {
            assert(n / base < n) by (nonlinear_arith)
                requires
                    n >= base,
                    base >= 2,
            ;
        }
        digits(n / base, base).push(hex_digit(n % base))
    }
}

/// `n` in decimal.
pub open spec fn decimal(n: nat) -> Seq<char> {
    digits(n, 10)
}

/// `n` in hexadecimal, padded to at least two digits.
pub open spec fn hex_padded(n: nat) -> Seq<char> {
    if n < 16 {
        seq!['0', hex_digit(n)]
    } else {
        digits(n, 16)
    }
}

fn digit_text(d: u64) -> (s: &'static str)
    requires
        d < 16,
    ensures
        s@ == seq![hex_digit(d as nat)],
{
    proof {
        reveal_strlit("0");
        reveal_strlit("1");
        reveal_strlit("2");
        reveal_strlit("3");
        reveal_strlit("4");
        reveal_strlit("5");
        reveal_strlit("6");
        reveal_strlit("7");
        reveal_strlit("8");
        reveal_strlit("9");
        reveal_strlit("a");
        reveal_strlit("b");
        reveal_strlit("c");
        reveal_strlit("d");
        reveal_strlit("e");
        reveal_strlit("f");
    }
    let s: &'static str = if d == 0 {
        "0"
    } else if d == 1 {
        "1"
    } else if d == 2 {
        "2"
    } else if d == 3 {
        "3"
    } else if d == 4 {
        "4"
    } else if d == 5 {
        "5"
    } else if d == 6 {
        "6"
    } else if d == 7 {
        "7"
    } else if d == 8 {
        "8"
    } else if d == 9 {
        "9"
    } else if d == 10 {
        "a"
    } else if d == 11 {
        "b"
    } else if d == 12 {
        "c"
    } else if d == 13 {
        "d"
    } else if d == 14 {
        "e"
    } else {
        "f"
    };
    assert(s@ =~= seq![hex_digit(d as nat)]);
    s
}

/// Appends the digits of `n` in base `base`.
pub fn push_digits(out: &mut String, n: u64, base: u64)
    requires
        2 <= base <= 16,
    ensures
        final(out)@ == old(out)@ + digits(n as nat, base as nat),
    decreases n,
{
    proof {
        assert(n / base < n || n < base) by (nonlinear_arith)
            requires
                base >= 2,
        ;
        assert(n % base < base) by (nonlinear_arith)
            requires
                base >= 2,
        ;
        assert(n < base ==> n % base == n) by (nonlinear_arith)
            requires
                base >= 2,
        ;
    }
    if n >= base {
        push_digits(out, n / base, base);
    }
    out.append(digit_text(n % base));
    assert(out@ =~= old(out)@ + digits(n as nat, base as nat));
}

/// Appends `n` in decimal.
pub fn push_decimal(out: &mut String, n: u64)
    ensures
        final(out)@ == old(out)@ + decimal(n as nat),
{
    push_digits(out, n, 10)
}

/// Appends `n` in hexadecimal with at least two digits.
pub fn push_hex_padded(out: &mut String, n: u64)
    ensures
        final(out)@ == old(out)@ + hex_padded(n as nat),
{
    if n < 16 {
        out.append(digit_text(0));
        out.append(digit_text(n));
        assert(out@ =~= old(out)@ + hex_padded(n as nat));
    } else {
        push_digits(out, n, 16);
    }
}

/// The bytes of `key` in hexadecimal.
pub open spec fn hex_of(key: Seq<u8>) -> Seq<char>
    decreases key.len(),
{
    if key.len() == 0 {
        Seq::empty()
    } else {
        hex_of(key.drop_last()) + hex_padded(key.last() as nat)
    }
}

/// The bytes of a key in hexadecimal.
pub fn hex_key(key: &[u8]) -> (text: String)
    ensures
        text@ == hex_of(key@),
{
    let mut text: String = String::new();
    let mut i: usize = 0;
    assert(key@.take(0) =~= Seq::<u8>::empty());
    while i < key.len()
        invariant
            i <= key@.len(),
            text@ == hex_of(key@.take(i as int)),
        decreases key@.len() - i,
    {
        assert(key@.take(i + 1).drop_last() =~= key@.take(i as int));
        push_hex_padded(&mut text, key[i] as u64);
        i = i + 1;
    }
    assert(key@.take(i as int) =~= key@);
    text
}

/// Numbers with commas between them.
pub open spec fn joined(ids: Seq<u64>) -> Seq<char>
    decreases ids.len(),
{
    if ids.len() == 0 {
        Seq::empty()
    } else if ids.len() == 1 {
        decimal(ids[0] as nat)
    } else {
        joined(ids.drop_last()) + ", "@ + decimal(ids.last() as nat)
    }
}

/// A list of numbers.
pub open spec fn list_text(ids: Seq<u64>) -> Seq<char> {
    "["@ + joined(ids) + "]"@
}

/// Appends a list of numbers.
pub fn push_list(out: &mut String, ids: &Vec<u64>)
    ensures
        final(out)@ == old(out)@ + list_text(ids@),
{
    out.append("[");
    let ghost head = out@;
    let mut i: usize = 0;
    assert(joined(ids@.take(0)) =~= Seq::<char>::empty());
    assert(out@ =~= head + joined(ids@.take(0)));
    while i < ids.len()
        invariant
            i <= ids@.len(),
            out@ == head + joined(ids@.take(i as int)),
        decreases ids@.len() - i,
    {
        assert(ids@.take(i + 1).drop_last() =~= ids@.take(i as int));
        assert(ids@.take(i + 1).last() == ids@[i as int]);
        if i > 0 {
            out.append(", ");
        } else {
            assert(joined(ids@.take(0)) =~= Seq::<char>::empty());
        }
        push_decimal(out, ids[i]);
        i = i + 1;
        assert(out@ =~= head + joined(ids@.take(i as int)));
    }
    assert(ids@.take(i as int) =~= ids@);
    out.append("]");
    assert(out@ =~= old(out)@ + list_text(ids@));
}

/// The value of a digit, 16 where it is none.
pub open spec fn digit_value(c: char) -> int {
    if '0' as int <= c as int <= '9' as int {
        c as int - '0' as int
    } else if 'a' as int <= c as int <= 'f' as int {
        c as int - 'a' as int + 10
    } else {
        16
    }
}

/// The number that is read from digits, the one of most weight first.
pub open spec fn read_digits(s: Seq<char>, base: int) -> int
    decreases s.len(),
{
    if s.len() == 0 {
        0
    } else {
        read_digits(s.drop_last(), base) * base + digit_value(s.last())
    }
}

/// What is written of a number reads as that number, in digits of its base only, and does not start
/// with a zero but for zero itself.
pub proof fn lemma_digits(n: nat, base: nat, i: int)
    requires
        2 <= base <= 16,
    ensures
        read_digits(digits(n, base), base as int) == n,
        digits(n, base).len() > 0,
        digits(n, base)[0] == '0' <==> n == 0,
        0 <= i < digits(n, base).len() ==> digit_value(digits(n, base)[i]) < base,
    decreases n,
{
    let s = digits(n, base);
    if n < base {
        assert(s =~= seq![hex_digit(n)]);
        assert(s.drop_last() =~= Seq::<char>::empty());
        assert(read_digits(s.drop_last(), base as int) == 0);
        assert(0 * base == 0);
    } else {
        let (q, r) = (n / base, n % base);
        vstd::arithmetic::div_mod::lemma_fundamental_div_mod(n as int, base as int);
        assert(0 < q < n && r < base) by (nonlinear_arith)
            requires
                n >= base,
                base >= 2,
                q == n / base,
                r == n % base,
        ;
        lemma_digits(q, base, i);
        assert(s.drop_last() =~= digits(q, base));
        assert(s.last() == hex_digit(r));
        assert(q * base == base * q) by (nonlinear_arith);
    }
}

/// A number is written in hexadecimal with two digits or more, and reads as that number.
pub proof fn lemma_hex_padded(n: nat, i: int)
    ensures
        read_digits(hex_padded(n), 16) == n,
        hex_padded(n).len() >= 2,
        n < 256 ==> hex_padded(n).len() == 2,
        0 <= i < hex_padded(n).len() ==> digit_value(hex_padded(n)[i]) < 16,
{
    reveal_with_fuel(read_digits, 3);
    lemma_digits(n, 16, i);
    let s = hex_padded(n);
    if n < 16 {
        assert(s.drop_last() =~= seq!['0']);
        assert(s.drop_last().drop_last() =~= Seq::<char>::empty());
    } else if n < 256 {
        assert(digits(n / 16, 16).len() == 1);
    } else {
        lemma_digits(n / 16, 16, 0);
    }
}

/// Bytes are written as two digits each, in their order, the one of more weight first.
pub proof fn lemma_hex(key: Seq<u8>, i: int)
    requires
        0 <= i < key.len(),
    ensures
        hex_of(key).len() == 2 * key.len(),
        digit_value(hex_of(key)[2 * i]) < 16,
        digit_value(hex_of(key)[2 * i + 1]) < 16,
        16 * digit_value(hex_of(key)[2 * i]) + digit_value(hex_of(key)[2 * i + 1]) == key[i],
    decreases key.len(),
{
    let front = key.drop_last();
    let last = hex_padded(key.last() as nat);
    lemma_hex_len(front);
    lemma_hex_padded(key.last() as nat, 0);
    lemma_hex_padded(key.last() as nat, 1);
    if i < front.len() {
        lemma_hex(front, i);
    } else {
        reveal_with_fuel(read_digits, 3);
        assert(last.drop_last() =~= seq![last[0]]);
        assert(last.drop_last().drop_last() =~= Seq::<char>::empty());
        assert(hex_of(key)[2 * i] == last[0]);
        assert(hex_of(key)[2 * i + 1] == last[1]);
    }
}

proof fn lemma_hex_len(key: Seq<u8>)
    ensures
        hex_of(key).len() == 2 * key.len(),
    decreases key.len(),
{
    if key.len() > 0 {
        lemma_hex_len(key.drop_last());
        lemma_hex_padded(key.last() as nat, 0);
    }
}

/// The numbers from `i` on in decimal, with a comma and a space between any two of them.
pub open spec fn listed(ids: Seq<u64>, i: int) -> Seq<char>
    decreases ids.len() - i,
{
    if i >= ids.len() {
        Seq::empty()
    } else if i == ids.len() - 1 {
        digits(ids[i] as nat, 10)
    } else {
        digits(ids[i] as nat, 10) + seq![',', ' '] + listed(ids, i + 1)
    }
}

proof fn lemma_listed(ids: Seq<u64>, i: int)
    requires
        0 <= i < ids.len(),
        ids.len() > 1,
    ensures
        listed(ids, i) == (if i == ids.len() - 1 {
            Seq::empty()
        } else {
            listed(ids.drop_last(), i) + seq![',', ' ']
        }) + digits(ids.last() as nat, 10),
    decreases ids.len() - i,
{
    let front = ids.drop_last();
    if i < ids.len() - 1 {
        lemma_listed(ids, i + 1);
        if i == front.len() - 1 {
            assert(listed(ids, i) =~= listed(front, i) + seq![',', ' '] + digits(ids.last() as nat, 10));
        } else {
            assert(listed(ids, i) =~= listed(front, i) + seq![',', ' '] + digits(ids.last() as nat, 10));
        }
    } else {
        assert(listed(ids, i) =~= Seq::<char>::empty() + digits(ids.last() as nat, 10));
    }
}

/// A list of numbers is written with brackets around it and commas in it.
pub proof fn lemma_list_text(ids: Seq<u64>)
    ensures
        list_text(ids) == seq!['['] + listed(ids, 0) + seq![']'],
    decreases ids.len(),
{
    reveal_strlit("[");
    reveal_strlit("]");
    reveal_strlit(", ");
    assert("["@ =~= seq!['[']);
    assert("]"@ =~= seq![']']);
    assert(", "@ =~= seq![',', ' ']);
    lemma_joined(ids);
}

proof fn lemma_joined(ids: Seq<u64>)
    ensures
        joined(ids) == listed(ids, 0),
    decreases ids.len(),
{
    reveal_strlit(", ");
    assert(", "@ =~= seq![',', ' ']);
    if ids.len() > 1 {
        lemma_joined(ids.drop_last());
        lemma_listed(ids, 0);
    }
}

} // verus!
