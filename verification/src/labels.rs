//! Identifiers of the form `<prefix><decimal index>`, such as `N0` or `E12`.

use vstd::prelude::*;

verus! {

/// The character of a decimal digit `d < 10`.
pub open spec fn digit_char(d: nat) -> char {
    if d == 0 { '0' }
    else if d == 1 { '1' }
    else if d == 2 { '2' }
    else if d == 3 { '3' }
    else if d == 4 { '4' }
    else if d == 5 { '5' }
    else if d == 6 { '6' }
    else if d == 7 { '7' }
    else if d == 8 { '8' }
    else { '9' }
}

/// The decimal representation of `n`, most significant digit first, without
/// leading zeros (as `format!("{}", n)` writes it).
pub open spec fn decimal(n: nat) -> Seq<char>
    decreases n,
{
    if n < 10 {
        seq![digit_char(n)]
    } else {
        decimal(n / 10).push(digit_char(n % 10))
    }
}

/// The identifier `prefix` followed by the decimal digits of `n`.
pub open spec fn indexed_label(prefix: Seq<char>, n: nat) -> Seq<char> {
    prefix + decimal(n)
}

proof fn lemma_digit_char_injective(a: nat, b: nat)
    requires
        a < 10,
        b < 10,
        digit_char(a) == digit_char(b),
    ensures
        a == b,
{
}

proof fn lemma_decimal_len(n: nat)
    ensures
        decimal(n).len() >= 1,
        n >= 10 ==> decimal(n).len() >= 2,
    decreases n,
{
    if n >= 10 {
        lemma_decimal_len(n / 10);
    }
}

/// Distinct numbers have distinct decimal representations.
pub proof fn lemma_decimal_injective(a: nat, b: nat)
    requires
        decimal(a) == decimal(b),
    ensures
        a == b,
    decreases a,
{
    lemma_decimal_len(a);
    lemma_decimal_len(b);
    if a < 10 && b < 10 {
        assert(decimal(a)[0] == digit_char(a));
        assert(decimal(b)[0] == digit_char(b));
        lemma_digit_char_injective(a, b);
    } else if a >= 10 && b >= 10 {
        let da = decimal(a);
        let db = decimal(b);
        assert(da.last() == digit_char(a % 10));
        assert(db.last() == digit_char(b % 10));
        lemma_digit_char_injective(a % 10, b % 10);
        assert(da.drop_last() =~= decimal(a / 10));
        assert(db.drop_last() =~= decimal(b / 10));
        lemma_decimal_injective(a / 10, b / 10);
    } else {
        assert(decimal(a).len() != decimal(b).len());
    }
}

/// Two labels with the same prefix are equal only when their indices are:
/// generated identifiers never collide.
pub proof fn lemma_indexed_label_injective(prefix: Seq<char>, a: nat, b: nat)
    requires
        indexed_label(prefix, a) == indexed_label(prefix, b),
    ensures
        a == b,
{
    let la = indexed_label(prefix, a);
    let lb = indexed_label(prefix, b);
    assert(la.subrange(prefix.len() as int, la.len() as int) =~= decimal(a));
    assert(lb.subrange(prefix.len() as int, lb.len() as int) =~= decimal(b));
    lemma_decimal_injective(a, b);
}

fn digit_str(d: usize) -> (s: &'static str)
    requires
        d < 10,
    ensures
        s@ == seq![digit_char(d as nat)],
{
    proof {
        reveal_strlit("0");
        reveal_strlit("1");
        reveal_strlit("2");
        reveal_strlit("3");
        reveal_strlit("4");
        reveal_strlit("5");
        reveal_strlit("6");
        reveal_strlit("7");
        reveal_strlit("8");
        reveal_strlit("9");
    }
    if d == 0 { "0" }
    else if d == 1 { "1" }
    else if d == 2 { "2" }
    else if d == 3 { "3" }
    else if d == 4 { "4" }
    else if d == 5 { "5" }
    else if d == 6 { "6" }
    else if d == 7 { "7" }
    else if d == 8 { "8" }
    else { "9" }
}

fn append_decimal(s: &mut String, n: usize)
    ensures
        final(s)@ == old(s)@ + decimal(n as nat),
    decreases n,
{
    if n >= 10 {
        append_decimal(s, n / 10);
    }
    s.append(digit_str(n % 10));
    assert(decimal(n as nat) =~= if n < 10 {
        seq![digit_char(n as nat)]
    } else {
        decimal((n / 10) as nat).push(digit_char((n % 10) as nat))
    });
}

/// Builds the identifier `prefix` followed by the decimal digits of `n`,
/// as `format!("{prefix}{n}")` does.
pub fn make_label(prefix: &str, n: usize) -> (label: String)
    ensures
        label@ == indexed_label(prefix@, n as nat),
{
    let mut label = String::from_str(prefix);
    append_decimal(&mut label, n);
    label
}


/// The value of a decimal digit character.
pub open spec fn digit_value(c: char) -> int {
    (c as int) - ('0' as int)
}

/// The number that a sequence of decimal digit characters denotes, most
/// significant digit first.
pub open spec fn numeral_value(s: Seq<char>) -> int
    decreases s.len(),
{
    if s.len() == 0 {
        0
    } else {
        numeral_value(s.drop_last()) * 10 + digit_value(s.last())
    }
}

/// `decimal(n)` is the standard base-10 numeral of `n`: every character is a
/// digit `0`..`9`, the digits denote `n`, and there is no leading zero.
pub proof fn lemma_decimal_is_numeral(n: nat)
    ensures
        forall|j: int| 0 <= j < decimal(n).len() ==> 0 <= #[trigger] digit_value(decimal(n)[j]) <= 9,
        numeral_value(decimal(n)) == n,
        decimal(n).len() >= 1,
        n > 0 ==> decimal(n)[0] != '0',
    decreases n,
{
    lemma_decimal_len(n);
    if n < 10 {
        assert(decimal(n).drop_last() =~= Seq::<char>::empty());
        assert(numeral_value(Seq::<char>::empty()) == 0);
        assert(decimal(n).last() == digit_char(n));
        assert(digit_value(digit_char(n)) == n);
    } else {
        lemma_decimal_is_numeral(n / 10);
        let d = decimal(n);
        let p = decimal(n / 10);
        assert(d.drop_last() =~= p);
        assert(d.last() == digit_char(n % 10));
        assert(digit_value(digit_char(n % 10)) == n % 10);
        assert(numeral_value(d) == numeral_value(p) * 10 + digit_value(d.last()));
        assert((n / 10) * 10 + n % 10 == n);
        assert forall|j: int| 0 <= j < d.len() implies 0 <= #[trigger] digit_value(d[j]) <= 9 by {
            if j < p.len() {
                assert(d[j] == p[j]);
            }
        }
        assert(d[0] == p[0]);
    }
}

} // verus!
