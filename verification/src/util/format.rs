//! Number and string formatting used by tile keys and tile URLs.

use vstd::prelude::*;

verus! {

/// The character that writes the digit `d`: `0` to `9`, then `a` to `z`.
pub open spec fn digit_char(d: nat) -> char {
    if d < 10 {
        ((d + 48) as u8) as char
    } else {
        ((d + 87) as u8) as char
    }
}

/// The digits of `n` in `base`, most significant first; zero is written `0`.
pub open spec fn radix_digits(n: nat, base: nat) -> Seq<char>
    decreases n,
{
    if base < 2 || n < base {
        seq![digit_char(n)]
    } else {
        proof {
            assert(n / base < n) by (nonlinear_arith)
                requires
                    base >= 2,
                    n >= base,
            ;
        }
        radix_digits(n / base, base).push(digit_char(n % base))
    }
}

/// Formats `n` in `base` through `radix_fmt::radix`.
///
/// Trusted: the crate writes the number without sign or prefix, most
/// significant digit first, with lower-case letters for the digits from ten
/// on, and a single `0` for zero. It refuses a base outside 2 to 36.
#[verifier::external_body]
pub(crate) fn radix_string(n: u128, base: u8) -> (result: String)
    requires
        2 <= base <= 36,
    ensures
        result@ == radix_digits(n as nat, base as nat),
{
    format!("{}", radix_fmt::radix(n, base))
}

/// `s` with every occurrence of `from` replaced by `to`: occurrences are
/// found from the left and do not overlap.
pub open spec fn replace_all(s: Seq<char>, from: Seq<char>, to: Seq<char>) -> Seq<char>
    decreases s.len(),
{
    if from.len() == 0 || s.len() < from.len() {
        s
    } else if s.subrange(0, from.len() as int) == from {
        to + replace_all(s.subrange(from.len() as int, s.len() as int), from, to)
    } else {
        seq![s[0]] + replace_all(s.subrange(1, s.len() as int), from, to)
    }
}

/// Replaces every occurrence of `from` in `s` through `str::replace`.
///
/// Trusted: std finds the occurrences of a string pattern from the left,
/// without overlap, and writes `to` in place of each. An empty pattern, which
/// std matches between all characters, is left out.
#[verifier::external_body]
pub(crate) fn str_replace(s: &str, from: &str, to: &str) -> (result: String)
    requires
        from@.len() > 0,
    ensures
        result@ == replace_all(s@, from@, to@),
{
    s.replace(from, to)
}

/// Different digits are written with different characters.
pub proof fn lemma_digit_char_injective(a: nat, b: nat)
    requires
        a < 36,
        b < 36,
        digit_char(a) == digit_char(b),
    ensures
        a == b,
{
    assert(((a + 48) as u8) as char as u8 == (a + 48) as u8);
    assert(((a + 87) as u8) as char as u8 == (a + 87) as u8);
    assert(((b + 48) as u8) as char as u8 == (b + 48) as u8);
    assert(((b + 87) as u8) as char as u8 == (b + 87) as u8);
}

/// A number is written with one digit where it is below the base, and with
/// more where it is not.
pub proof fn lemma_radix_digits_len(n: nat, base: nat)
    requires
        base >= 2,
    ensures
        radix_digits(n, base).len() >= 1,
        n < base <==> radix_digits(n, base).len() == 1,
    decreases n,
{
    if n >= base {
        assert(n / base < n) by (nonlinear_arith)
            requires
                base >= 2,
                n >= base,
        ;
        lemma_radix_digits_len(n / base, base);
    }
}

/// Different numbers are written differently in base 36.
pub proof fn lemma_radix_digits_injective(a: nat, b: nat)
    requires
        radix_digits(a, 36) == radix_digits(b, 36),
    ensures
        a == b,
    decreases a,
{
    lemma_radix_digits_len(a, 36);
    lemma_radix_digits_len(b, 36);
    if a < 36 {
        assert(radix_digits(a, 36)[0] == digit_char(a));
        assert(radix_digits(b, 36)[0] == digit_char(b));
        lemma_digit_char_injective(a, b);
    } else {
        let front_a = radix_digits(a / 36, 36);
        let front_b = radix_digits(b / 36, 36);
        assert(front_a.push(digit_char(a % 36)).drop_last() =~= front_a);
        assert(front_b.push(digit_char(b % 36)).drop_last() =~= front_b);
        assert(front_a.push(digit_char(a % 36)).last() == digit_char(a % 36));
        assert(front_b.push(digit_char(b % 36)).last() == digit_char(b % 36));
        lemma_digit_char_injective(a % 36, b % 36);
        lemma_radix_digits_injective(a / 36, b / 36);
    }
}

/// No digit is written with a hyphen.
pub proof fn lemma_digit_char_no_hyphen(d: nat)
    requires
        d < 36,
    ensures
        digit_char(d) != '-',
{
    assert(((d + 48) as u8) as char as u8 == (d + 48) as u8);
    assert(((d + 87) as u8) as char as u8 == (d + 87) as u8);
    assert('-' as u8 == 45);
}

/// No number is written in base 36 with a hyphen.
pub proof fn lemma_radix_digits_no_hyphen(n: nat)
    ensures
        forall|i: int|
            0 <= i < radix_digits(n, 36).len() ==> #[trigger] radix_digits(n, 36)[i] != '-',
    decreases n,
{
    if n < 36 {
        lemma_digit_char_no_hyphen(n);
    } else {
        lemma_radix_digits_no_hyphen(n / 36);
        lemma_digit_char_no_hyphen(n % 36);
        let front = radix_digits(n / 36, 36);
        assert forall|i: int| 0 <= i < radix_digits(n, 36).len() implies #[trigger] radix_digits(
            n,
            36,
        )[i] != '-' by {
            if i < front.len() {
                assert(radix_digits(n, 36)[i] == front[i]);
            }
        }
    }
}

} // verus!
