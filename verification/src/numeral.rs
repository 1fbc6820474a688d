//! Decimal numerals: the canonical decimal representation of an unsigned
//! integer as a sequence of characters, the executable conversion, and the
//! lemmas that make the representation invertible.

use vstd::prelude::*;
use vstd::string::StringExecFns;

verus! {

/// The character for one decimal digit.
pub open spec fn digit_char(d: nat) -> char {
    if d == 0 {
        '0'
    } else if d == 1 {
        '1'
    } else if d == 2 {
        '2'
    } else if d == 3 {
        '3'
    } else if d == 4 {
        '4'
    } else if d == 5 {
        '5'
    } else if d == 6 {
        '6'
    } else if d == 7 {
        '7'
    } else if d == 8 {
        '8'
    } else {
        '9'
    }
}

/// The canonical decimal representation of `n`: no sign, no leading zeroes,
/// a single `'0'` for zero.
pub open spec fn dec_str(n: nat) -> Seq<char>
    decreases n,
{
    if n < 10 {
        seq![digit_char(n)]
    } else {
        dec_str(n / 10) + seq![digit_char(n % 10)]
    }
}

/// Whether `c` is a decimal digit.
pub open spec fn is_digit(c: char) -> bool {
    48 <= c as int <= 57
}

/// The value of one digit character.
pub open spec fn digit_val(c: char) -> nat {
    (c as int - 48) as nat
}

/// The value of the digit run `s[i..j]`, most significant digit first.
pub open spec fn digits_val(s: Seq<char>, i: int, j: int) -> nat
    decreases j - i,
{
    if i >= j {
        0
    } else {
        digits_val(s, i, j - 1) * 10 + digit_val(s[j - 1])
    }
}

fn digit_str(d: u128) -> (s: &'static str)
    requires
        d < 10,
    ensures
        s@ == seq![digit_char(d as nat)],
{
    let r: &'static str = if d == 0 {
        "0"
    } else if d == 1 {
        "1"
    } else if d == 2 {
        "2"
    } else if d == 3 {
        "3"
    } else if d == 4 {
        "4"
    } else if d == 5 {
        "5"
    } else if d == 6 {
        "6"
    } else if d == 7 {
        "7"
    } else if d == 8 {
        "8"
    } else {
        "9"
    };
    proof {
        reveal_strlit("0");
        reveal_strlit("1");
        reveal_strlit("2");
        reveal_strlit("3");
        reveal_strlit("4");
        reveal_strlit("5");
        reveal_strlit("6");
        reveal_strlit("7");
        reveal_strlit("8");
        reveal_strlit("9");
        assert(r@ =~= seq![digit_char(d as nat)]);
    }
    r
}

/// Renders `n` in decimal.
pub fn u128_to_dec(n: u128) -> (s: String)
    ensures
        s@ == dec_str(n as nat),
    decreases n,
{
    if n < 10 {
        digit_str(n).to_owned()
    } else {
        let mut s = u128_to_dec(n / 10);
        s.append(digit_str(n % 10));
        s
    }
}

/// A decimal representation is never empty and holds digits only.
pub proof fn lemma_dec_str_is_digits(n: nat)
    ensures
        dec_str(n).len() >= 1,
        forall|k: int| 0 <= k < dec_str(n).len() ==> is_digit(#[trigger] dec_str(n)[k]),
    decreases n,
{
    if n < 10 {
        assert(is_digit(digit_char(n)));
    } else {
        lemma_dec_str_is_digits(n / 10);
        assert(is_digit(digit_char(n % 10)));
        assert forall|k: int| 0 <= k < dec_str(n).len() implies is_digit(
            #[trigger] dec_str(n)[k],
        ) by {
            if k < dec_str(n / 10).len() {
                assert(dec_str(n)[k] == dec_str(n / 10)[k]);
            } else {
                assert(dec_str(n)[k] == digit_char(n % 10));
            }
        }
    }
}

/// Reading the digits of `dec_str(n)` back yields `n`.
pub proof fn lemma_digits_val_of_dec_str(s: Seq<char>, i: int, j: int, n: nat)
    requires
        0 <= i <= j <= s.len(),
        s.subrange(i, j) == dec_str(n),
    ensures
        digits_val(s, i, j) == n,
        j - i == dec_str(n).len(),
    decreases n,
{
    lemma_dec_str_is_digits(n);
    assert(j - i == dec_str(n).len());
    if n < 10 {
        assert(s.subrange(i, j)[0] == s[i]);
        assert(s[j - 1] == dec_str(n)[0]);
        assert(digit_val(digit_char(n)) == n);
        assert(digits_val(s, i, j - 1) == 0);
        assert(digits_val(s, i, j) == digits_val(s, i, j - 1) * 10 + digit_val(s[j - 1]));
    } else {
        let pre = dec_str(n / 10);
        assert(s[j - 1] == dec_str(n)[j - i - 1]);
        assert(dec_str(n)[j - i - 1] == digit_char(n % 10));
        assert(s.subrange(i, j - 1) =~= pre) by {
            assert forall|k: int| 0 <= k < pre.len() implies s.subrange(i, j - 1)[k] == pre[k] by {
                assert(s.subrange(i, j - 1)[k] == s.subrange(i, j)[k]);
                assert(dec_str(n)[k] == pre[k]);
            }
        }
        lemma_digits_val_of_dec_str(s, i, j - 1, n / 10);
        assert(digit_val(digit_char((n % 10))) == n % 10);
        assert(digits_val(s, i, j) == (n / 10) * 10 + n % 10);
        assert((n / 10) * 10 + n % 10 == n) by (nonlinear_arith);
    }
}

} // verus!
