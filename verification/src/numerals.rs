//! Decimal numerals: the spec-level decimal rendering of a natural number,
//! an executable renderer proved against it, and the facts about decimal
//! strings (digits only, injectivity) that the anchor-identifier proofs need.

use vstd::prelude::*;

verus! {

/// The ten decimal digit characters.
pub open spec fn is_digit_char(c: char) -> bool {
    '0' <= c && c <= '9'
}

/// The digit character for a value below ten.
pub open spec fn digit_char(d: nat) -> char
    recommends
        d < 10,
{
    if d == 0 {
        '0'
    } else if d == 1 {
        '1'
    } else if d == 2 {
        '2'
    } else if d == 3 {
        '3'
    } else if d == 4 {
        '4'
    } else if d == 5 {
        '5'
    } else if d == 6 {
        '6'
    } else if d == 7 {
        '7'
    } else if d == 8 {
        '8'
    } else {
        '9'
    }
}

/// The numeric value of a digit character.
pub open spec fn digit_val(c: char) -> nat
    recommends
        is_digit_char(c),
{
    (c as int - '0' as int) as nat
}

/// The decimal numeral of `n`, most significant digit first, no leading
/// zeros (except for the single digit of `n == 0` itself).
pub open spec fn dec(n: nat) -> Seq<char>
    decreases n,
{
    if n < 10 {
        seq![digit_char(n)]
    } else {
        dec(n / 10) + seq![digit_char(n % 10)]
    }
}

/// The value of a run of digit characters, most significant first.
pub open spec fn digits_val(s: Seq<char>) -> nat
    decreases s.len(),
{
    if s.len() == 0 {
        0
    } else {
        digits_val(s.drop_last()) * 10 + digit_val(s.last())
    }
}

/// A decimal numeral is nonempty and consists of digit characters only.
pub proof fn lemma_dec_digits(n: nat)
    ensures
        dec(n).len() >= 1,
        forall|i: int| 0 <= i < dec(n).len() ==> is_digit_char(#[trigger] dec(n)[i]),
    decreases n,
{
    if n >= 10 {
        lemma_dec_digits(n / 10);
    }
}

/// Numerals of distinct numbers differ: decimal rendering is injective.
pub proof fn lemma_dec_injective(n: nat, m: nat)
    requires
        dec(n) == dec(m),
    ensures
        n == m,
    decreases n + m,
{
    lemma_dec_digits(n);
    lemma_dec_digits(m);
    if n < 10 && m < 10 {
        assert(dec(n)[0] == digit_char(n) && dec(m)[0] == digit_char(m));
    } else if n < 10 && m >= 10 {
        lemma_dec_digits(m / 10);
        assert(dec(m).len() >= 2);
    } else if n >= 10 && m < 10 {
        lemma_dec_digits(n / 10);
        assert(dec(n).len() >= 2);
    } else {
        assert(dec(n).last() == digit_char(n % 10));
        assert(dec(m).last() == digit_char(m % 10));
        assert(n % 10 == m % 10);
        assert(dec(n).drop_last() =~= dec(n / 10));
        assert(dec(m).drop_last() =~= dec(m / 10));
        lemma_dec_injective(n / 10, m / 10);
    }
}

/// The digit character for `d`, as a one-character string slice.
fn digit_str(d: u64) -> (r: &'static str)
    requires
        d < 10,
    ensures
        r@ == seq![digit_char(d as nat)],
{
    let r: &'static str = if d == 0 {
        "0"
    } else if d == 1 {
        "1"
    } else if d == 2 {
        "2"
    } else if d == 3 {
        "3"
    } else if d == 4 {
        "4"
    } else if d == 5 {
        "5"
    } else if d == 6 {
        "6"
    } else if d == 7 {
        "7"
    } else if d == 8 {
        "8"
    } else {
        "9"
    };
    proof {
        reveal_strlit("0");
        reveal_strlit("1");
        reveal_strlit("2");
        reveal_strlit("3");
        reveal_strlit("4");
        reveal_strlit("5");
        reveal_strlit("6");
        reveal_strlit("7");
        reveal_strlit("8");
        reveal_strlit("9");
        assert(r@ =~= seq![digit_char(d as nat)]);
    }
    r
}

/// Renders `n` in decimal, matching the spec-level numeral exactly.
pub fn render_number(n: u64) -> (s: String)
    ensures
        s@ == dec(n as nat),
    decreases n,
{
    if n < 10 {
        let s = String::from_str(digit_str(n));
        s
    } else {
        let mut s = render_number(n / 10);
        s.append(digit_str(n % 10));
        proof {
            assert(s@ =~= dec(n as nat));
        }
        s
    }
}

} // verus!
