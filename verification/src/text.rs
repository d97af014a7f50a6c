//! Building the text of identifiers, labels and numbers.
use crate::lexer::{digits_value, is_digit};
use vstd::prelude::*;

verus! {

/// `std::string::String::push`, which appends one character to the end of
/// the string; the contract claims exactly that of it.
#[verifier::external_body]
pub(crate) fn string_push(s: &mut String, c: char)
    ensures
        final(s)@ == old(s)@.push(c),
{
    s.push(c);
}

/// The character of a decimal digit.
pub open spec fn digit_char(d: int) -> char {
    (('0' as int) + d) as char
}

/// The decimal notation of a natural number, without leading zeros.
pub open spec fn decimal(n: nat) -> Seq<char>
    decreases n,
{
    if n < 10 {
        seq![digit_char(n as int)]
    } else {
        decimal(n / 10).push(digit_char((n % 10) as int))
    }
}

/// The decimal notation of an integer, with a leading `-` when it is negative.
pub open spec fn signed_decimal(x: int) -> Seq<char> {
    if x < 0 {
        seq!['-'] + decimal((-x) as nat)
    } else {
        decimal(x as nat)
    }
}

/// Every character is a decimal digit.
pub open spec fn all_digits(s: Seq<char>) -> bool {
    forall|i: int| 0 <= i < s.len() ==> is_digit(#[trigger] s[i])
}

proof fn lemma_digit_char(d: int)
    requires
        0 <= d < 10,
    ensures
        is_digit(digit_char(d)),
        digit_char(d) as int - '0' as int == d,
        d != 0 ==> digit_char(d) != '0',
{
}

/// The decimal notation of `n` reads back as `n`: it is a non-empty string
/// of digits whose value is `n`, and it has no leading zero.
pub proof fn lemma_decimal_reads_back(n: nat)
    ensures
        decimal(n).len() >= 1,
        all_digits(decimal(n)),
        digits_value(decimal(n)) == n,
        n > 0 ==> decimal(n)[0] != '0',
        decimal(n).len() > 1 ==> decimal(n)[0] != '0',
    decreases n,
{
    let s = decimal(n);
    if n < 10 {
        lemma_digit_char(n as int);
        assert(s.drop_last() =~= Seq::<char>::empty());
        assert(digits_value(Seq::<char>::empty()) == 0);
    } else {
        let q = n / 10;
        let r = n % 10;
        assert(n == 10 * q + r) by (nonlinear_arith)
            requires
                q == n / 10,
                r == n % 10,
        ;
        assert(q >= 1) by (nonlinear_arith)
            requires
                n >= 10,
                q == n / 10,
        ;
        lemma_decimal_reads_back(q);
        lemma_digit_char(r as int);
        let t = decimal(q);
        assert(s == t.push(digit_char(r as int)));
        assert(s.drop_last() =~= t);
        assert(s[0] == t[0]);
        assert forall|i: int| 0 <= i < s.len() implies is_digit(#[trigger] s[i]) by {
            if i < t.len() {
                assert(s[i] == t[i]);
            }
        }
    }
}

/// The text of an integer reads back as that integer: it starts with `-`
/// exactly when the integer is negative; what follows the sign (or the
/// whole text, for a natural number) is a string of digits without leading
/// zero whose value is the integer's magnitude.
pub proof fn lemma_signed_decimal_reads_back(x: int)
    ensures
        signed_decimal(x).len() >= 1,
        (signed_decimal(x)[0] == '-') <==> x < 0,
        x >= 0 ==> all_digits(signed_decimal(x)) && digits_value(signed_decimal(x)) == x && (
        signed_decimal(x).len() > 1 ==> signed_decimal(x)[0] != '0'),
        x < 0 ==> signed_decimal(x).len() >= 2 && all_digits(signed_decimal(x).drop_first())
            && digits_value(signed_decimal(x).drop_first()) == -x && signed_decimal(x)[1] != '0',
{
    let s = signed_decimal(x);
    if x < 0 {
        let m = (-x) as nat;
        lemma_decimal_reads_back(m);
        assert(s.drop_first() =~= decimal(m));
        assert(s[1] == decimal(m)[0]);
    } else {
        lemma_decimal_reads_back(x as nat);
        assert(is_digit(s[0]));
    }
}

fn digit(d: u64) -> (c: char)
    requires
        d < 10,
    ensures
        c == digit_char(d as int),
{
    let b: u8 = 48u8 + (d as u8);
    b as char
}

/// Appends the decimal notation of `n`.
pub fn push_decimal(s: &mut String, n: u64)
    ensures
        final(s)@ == old(s)@ + decimal(n as nat),
    decreases n,
{
    if n >= 10 {
        push_decimal(s, n / 10);
    }
    string_push(s, digit(n % 10));
    assert(final(s)@ =~= old(s)@ + decimal(n as nat));
}

/// Appends the decimal notation of `x`, with a `-` when it is negative.
pub fn push_signed_decimal(s: &mut String, x: i32)
    ensures
        final(s)@ == old(s)@ + signed_decimal(x as int),
{
    if x < 0 {
        string_push(s, '-');
        let m: i64 = x as i64;
        push_decimal(s, (-m) as u64);
        assert(final(s)@ =~= old(s)@ + signed_decimal(x as int));
    } else {
        push_decimal(s, x as u64);
    }
}

/// Appends the characters of `t`.
pub fn push_str(s: &mut String, t: &str)
    ensures
        final(s)@ == old(s)@ + t@,
{
    s.append(t);
}

} // verus!
