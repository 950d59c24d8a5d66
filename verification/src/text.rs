//! Small verified text helpers: decimal rendering of integers and a
//! char-by-char `String` builder.

use vstd::prelude::*;

verus! {

/// `String::push`: appends one char.
#[verifier::external_body]
pub(crate) fn string_push(s: &mut String, c: char)
    ensures
        final(s)@ == old(s)@.push(c),
{
    s.push(c);
}

/// The ASCII digit char for `d < 10`.
pub open spec fn digit_char(d: nat) -> char {
    ('0' as nat + d) as char
}

/// The decimal digits of `n`, most significant first, no leading zeros
/// (`0` has the single digit `0`).
pub open spec fn digits_of(n: nat) -> Seq<nat>
    decreases n,
{
    if n < 10 {
        seq![n]
    } else {
        digits_of(n / 10).push(n % 10)
    }
}

/// Decimal representation of `n`.
pub open spec fn decimal(n: nat) -> Seq<char> {
    digits_of(n).map_values(|d: nat| digit_char(d))
}

/// Every digit is below 10, and there is at least one.
pub proof fn lemma_digits_of(n: nat)
    ensures
        digits_of(n).len() >= 1,
        forall|j: int| 0 <= j < digits_of(n).len() ==> #[trigger] digits_of(n)[j] < 10,
    decreases n,
{
    if n >= 10 {
        lemma_digits_of(n / 10);
    }
}

/// A number has no more digits than its value (for `n >= 1`).
pub proof fn lemma_digits_len_le(n: nat)
    requires
        n >= 1,
    ensures
        digits_of(n).len() <= n,
    decreases n,
{
    if n >= 10 {
        lemma_digits_len_le(n / 10);
    }
}

/// More value, no fewer digits.
pub proof fn lemma_digits_len_mono(a: nat, b: nat)
    requires
        a <= b,
    ensures
        digits_of(a).len() <= digits_of(b).len(),
    decreases b,
{
    if a >= 10 {
        lemma_digits_len_mono(a / 10, b / 10);
    } else if b >= 10 {
        lemma_digits_of(b / 10);
    }
}

/// Numbers below `10^10` have at most 10 digits.
pub proof fn lemma_digits_len_u32(n: nat)
    requires
        n <= 0xffff_ffff,
    ensures
        digits_of(n).len() <= 10,
{
    lemma_digits_len_mono(n, 9_999_999_999);
    assert(digits_of(9_999_999_999).len() == 10) by {
        reveal_with_fuel(digits_of, 11);
    }
}

proof fn lemma_decimal_push(n: nat)
    requires
        n >= 10,
    ensures
        decimal(n) == decimal(n / 10).push(digit_char(n % 10)),
{
    assert(decimal(n) =~= decimal(n / 10).push(digit_char(n % 10)));
}

/// Appends the decimal representation of `n` to `s`.
pub fn push_decimal(s: &mut String, n: u64)
    ensures
        final(s)@ == old(s)@ + decimal(n as nat),
    decreases n,
{
    if n < 10 {
        let c = digit(n);
        string_push(s, c);
        assert(old(s)@.push(c) =~= old(s)@ + decimal(n as nat));
    } else {
        push_decimal(s, n / 10);
        let c = digit(n % 10);
        string_push(s, c);
        proof {
            lemma_decimal_push(n as nat);
        }
        assert(old(s)@ + decimal(n as nat / 10) + seq![c] =~= old(s)@ + decimal(n as nat));
    }
}

/// The decimal digit values of `n`, most significant first.
pub fn digit_values(n: u64) -> (v: Vec<u8>)
    ensures
        v@.len() == digits_of(n as nat).len(),
        forall|j: int| 0 <= j < v@.len() ==> #[trigger] v@[j] as nat == digits_of(n as nat)[j],
    decreases n,
{
    if n < 10 {
        let mut v = Vec::new();
        v.push(n as u8);
        v
    } else {
        let mut v = digit_values(n / 10);
        v.push((n % 10) as u8);
        v
    }
}

fn digit(d: u64) -> (c: char)
    requires
        d < 10,
    ensures
        c == digit_char(d as nat),
{
    match d {
        0 => '0',
        1 => '1',
        2 => '2',
        3 => '3',
        4 => '4',
        5 => '5',
        6 => '6',
        7 => '7',
        8 => '8',
        _ => '9',
    }
}

} // verus!
