//! Parsing of a positive decimal count from a command-line argument.

use vstd::prelude::*;
use vstd::string::StringExecFns;

verus! {

/// Whether `c` is an ASCII decimal digit.
pub open spec fn is_digit(c: char) -> bool {
    '0' <= c && c <= '9'
}

/// The numeric value of one ASCII decimal digit.
pub open spec fn digit_val(c: char) -> nat {
    if c == '0' {
        0
    } else if c == '1' {
        1
    } else if c == '2' {
        2
    } else if c == '3' {
        3
    } else if c == '4' {
        4
    } else if c == '5' {
        5
    } else if c == '6' {
        6
    } else if c == '7' {
        7
    } else if c == '8' {
        8
    } else {
        9
    }
}

/// The value of a sequence of decimal digits, most significant first.
pub open spec fn digits_val(s: Seq<char>) -> nat
    decreases s.len(),
{
    if s.len() == 0 {
        0
    } else {
        digits_val(s.drop_last()) * 10 + digit_val(s.last())
    }
}

/// The digit part of a decimal string: everything after one optional
/// leading plus sign.
pub open spec fn num_body(s: Seq<char>) -> Seq<char> {
    if s.len() > 0 && s[0] == '+' {
        s.drop_first()
    } else {
        s
    }
}

/// Whether `s` spells an unsigned decimal integer the way `str::parse`
/// reads one: an optional leading plus sign, then one or more ASCII digits
/// and nothing else.
pub open spec fn is_uint_string(s: Seq<char>) -> bool {
    &&& num_body(s).len() > 0
    &&& forall|j: int| 0 <= j < num_body(s).len() ==> is_digit(#[trigger] num_body(s)[j])
}

/// A digit string's value only grows as more digits are taken.
proof fn lemma_digits_val_prefix(s: Seq<char>, j: int)
    requires
        0 <= j <= s.len(),
    ensures
        digits_val(s.take(j)) <= digits_val(s),
    decreases s.len(),
{
    if j < s.len() {
        assert(s.drop_last().take(j) =~= s.take(j));
        lemma_digits_val_prefix(s.drop_last(), j);
    } else {
        assert(s.take(j) =~= s);
    }
}

/// Reads a strictly positive decimal count from `val`, as the head tool's
/// line and byte limits are given on the command line. `Ok` comes exactly
/// on the strings `str::parse::<usize>` accepts whose value is nonzero;
/// every other input comes back unchanged as the error.
pub fn parse_positive_int(val: &str) -> (r: Result<usize, String>)
    ensures
        r is Ok <==> is_uint_string(val@) && 0 < digits_val(num_body(val@)) <= usize::MAX,
        r is Ok ==> r->Ok_0 == digits_val(num_body(val@)),
        r is Err ==> r->Err_0@ == val@,
{
    let n: usize = val.unicode_len();
    let start: usize = if n > 0 && val.get_char(0) == '+' {
        1
    } else {
        0
    };
    let ghost body = num_body(val@);
    proof {
        assert(body =~= val@.skip(start as int));
    }
    if start >= n {
        // no digits at all
        return Err(String::from_str(val));
    }
    let mut acc: usize = 0;
    let mut i: usize = start;
    proof {
        assert(body.take(0) =~= Seq::<char>::empty());
    }
    while i < n
        invariant
            start <= i <= n,
            n == val@.len(),
            body == num_body(val@),
            body == val@.skip(start as int),
            acc == digits_val(body.take(i - start)),
            forall|j: int| 0 <= j < i - start ==> is_digit(#[trigger] body[j]),
        decreases n - i,
    {
        let c: char = val.get_char(i);
        if c < '0' || c > '9' {
            // a non-digit anywhere makes the whole string unparsable
            proof {
                assert(body[i - start] == val@[i as int]);
                assert(!is_digit(body[i - start]));
            }
            return Err(String::from_str(val));
        }
        let d: usize = if c == '0' {
            0
        } else if c == '1' {
            1
        } else if c == '2' {
            2
        } else if c == '3' {
            3
        } else if c == '4' {
            4
        } else if c == '5' {
            5
        } else if c == '6' {
            6
        } else if c == '7' {
            7
        } else if c == '8' {
            8
        } else {
            9
        };
        proof {
            assert(body.take(i + 1 - start).drop_last() =~= body.take(i - start));
            assert(body.take(i + 1 - start).last() == c);
        }
        if acc > (usize::MAX - d) / 10 {
            // the value has already outgrown usize
            proof {
                assert(digits_val(body.take(i + 1 - start)) > usize::MAX);
                lemma_digits_val_prefix(body, i + 1 - start);
            }
            return Err(String::from_str(val));
        }
        acc = acc * 10 + d;
        i = i + 1;
    }
    proof {
        assert(body.take(n - start) =~= body);
    }
    if acc == 0 {
        return Err(String::from_str(val));
    }
    Ok(acc)
}

} // verus!
