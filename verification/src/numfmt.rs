//! Decimal rendering and right-justified padding for the count columns the
//! tools print.

use vstd::prelude::*;
use vstd::string::StringExecFns;

verus! {

/// The character for one decimal digit value (`d` below ten).
pub open spec fn digit_char(d: nat) -> char {
    if d == 0 {
        '0'
    } else if d == 1 {
        '1'
    } else if d == 2 {
        '2'
    } else if d == 3 {
        '3'
    } else if d == 4 {
        '4'
    } else if d == 5 {
        '5'
    } else if d == 6 {
        '6'
    } else if d == 7 {
        '7'
    } else if d == 8 {
        '8'
    } else {
        '9'
    }
}

/// The decimal spelling of `n`, most significant digit first, without
/// leading zeroes (zero itself is a single '0').
pub open spec fn dec_digits(n: nat) -> Seq<char>
    decreases n,
{
    if n < 10 {
        seq![digit_char(n)]
    } else {
        dec_digits(n / 10).push(digit_char(n % 10))
    }
}

/// `n` space characters.
pub open spec fn spaces(n: nat) -> Seq<char>
    decreases n,
{
    if n == 0 {
        Seq::empty()
    } else {
        spaces((n - 1) as nat).push(' ')
    }
}

/// `s` padded on the left with spaces to at least `width` characters.
pub open spec fn justify_right(s: Seq<char>, width: nat) -> Seq<char> {
    if s.len() >= width {
        s
    } else {
        spaces((width - s.len()) as nat) + s
    }
}

/// The one-character string for a decimal digit value.
fn digit_str(d: usize) -> (r: &'static str)
    requires
        d < 10,
    ensures
        r@ == seq![digit_char(d as nat)],
{
    proof {
        reveal_strlit("0");
        reveal_strlit("1");
        reveal_strlit("2");
        reveal_strlit("3");
        reveal_strlit("4");
        reveal_strlit("5");
        reveal_strlit("6");
        reveal_strlit("7");
        reveal_strlit("8");
        reveal_strlit("9");
    }
    let r: &'static str = if d == 0 {
        "0"
    } else if d == 1 {
        "1"
    } else if d == 2 {
        "2"
    } else if d == 3 {
        "3"
    } else if d == 4 {
        "4"
    } else if d == 5 {
        "5"
    } else if d == 6 {
        "6"
    } else if d == 7 {
        "7"
    } else if d == 8 {
        "8"
    } else {
        "9"
    };
    proof {
        assert(r@ =~= seq![digit_char(d as nat)]);
    }
    r
}

/// Appends the decimal spelling of `n` to `out`.
fn push_dec(n: usize, out: &mut String)
    ensures
        final(out)@ == old(out)@ + dec_digits(n as nat),
    decreases n,
{
    if n < 10 {
        out.append(digit_str(n));
    } else {
        push_dec(n / 10, out);
        out.append(digit_str(n % 10));
        proof {
            assert(old(out)@ + dec_digits((n / 10) as nat) + seq![digit_char((n % 10) as nat)]
                =~= old(out)@ + dec_digits(n as nat));
        }
    }
}

/// The decimal spelling of `n` as a fresh string.
pub fn to_decimal(n: usize) -> (r: String)
    ensures
        r@ == dec_digits(n as nat),
{
    let mut out: String = String::new();
    push_dec(n, &mut out);
    proof {
        assert(Seq::<char>::empty() + dec_digits(n as nat) =~= dec_digits(n as nat));
    }
    out
}

/// `s` padded on the left with spaces to at least `width` characters.
pub fn right_justified(s: &str, width: usize) -> (r: String)
    ensures
        r@ == justify_right(s@, width as nat),
{
    proof {
        reveal_strlit(" ");
    }
    let n: usize = s.unicode_len();
    let mut out: String = String::new();
    let mut k: usize = n;
    while k < width
        invariant
            n == s@.len(),
            n <= k,
            n < width ==> k <= width,
            n >= width ==> k == n,
            out@ == spaces((k - n) as nat),
        decreases width - k,
    {
        out.append(" ");
        proof {
            reveal_strlit(" ");
            assert(" "@ =~= seq![' ']);
            assert(spaces(((k + 1) - n) as nat) == spaces((k - n) as nat).push(' '));
            assert(spaces((k - n) as nat) + " "@ =~= spaces(((k + 1) - n) as nat));
        }
        k = k + 1;
    }
    out.append(s);
    proof {
        if n >= width {
            assert(spaces(0) + s@ =~= s@);
        }
    }
    out
}

} // verus!
