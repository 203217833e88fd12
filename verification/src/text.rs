//! Character and line fundamentals: whitespace, trailing-whitespace trimming,
//! and lexicographic comparison by code point.

use vstd::prelude::*;

verus! {

/// Whether `c` has the Unicode `White_Space` property, the class of
/// characters that trailing-whitespace trimming and word splitting use.
pub open spec fn is_space(c: char) -> bool {
    ||| c == ' '
    ||| c == '\t'
    ||| c == '\n'
    ||| c == '\r'
    ||| c == '\u{b}'
    ||| c == '\u{c}'
    ||| c == '\u{85}'
    ||| c == '\u{a0}'
    ||| c == '\u{1680}'
    ||| ('\u{2000}' <= c && c <= '\u{200a}')
    ||| c == '\u{2028}'
    ||| c == '\u{2029}'
    ||| c == '\u{202f}'
    ||| c == '\u{205f}'
    ||| c == '\u{3000}'
}

/// Runtime test for `is_space`.
pub fn is_space_char(c: char) -> (b: bool)
    ensures
        b == is_space(c),
{
    c == ' ' || c == '\t' || c == '\n' || c == '\r' || c == '\u{b}' || c == '\u{c}'
        || c == '\u{85}' || c == '\u{a0}' || c == '\u{1680}' || ('\u{2000}' <= c && c <= '\u{200a}')
        || c == '\u{2028}' || c == '\u{2029}' || c == '\u{202f}' || c == '\u{205f}'
        || c == '\u{3000}'
}

/// The comparison form of a line in the deduplicator: the line with every
/// trailing whitespace character removed.
pub open spec fn trim_key(s: Seq<char>) -> Seq<char>
    decreases s.len(),
{
    if s.len() > 0 && is_space(s[s.len() - 1]) {
        trim_key(s.drop_last())
    } else {
        s
    }
}

/// Three-way lexicographic comparison of two character sequences by code
/// point: negative when `a` sorts first, zero on equality, positive when
/// `b` sorts first.
pub open spec fn lex_cmp(a: Seq<char>, b: Seq<char>) -> int
    decreases a.len() + b.len(),
{
    if a.len() == 0 && b.len() == 0 {
        0
    } else if a.len() == 0 {
        -1
    } else if b.len() == 0 {
        1
    } else if a[0] < b[0] {
        -1
    } else if b[0] < a[0] {
        1
    } else {
        lex_cmp(a.drop_first(), b.drop_first())
    }
}

/// `lex_cmp` only ever returns -1, 0 or 1, and returns 0 exactly on equal
/// sequences.
pub proof fn lemma_lex_cmp_eq(a: Seq<char>, b: Seq<char>)
    ensures
        -1 <= lex_cmp(a, b) <= 1,
        lex_cmp(a, b) == 0 <==> a == b,
    decreases a.len() + b.len(),
{
    if a.len() > 0 && b.len() > 0 && !(a[0] < b[0]) && !(b[0] < a[0]) {
        lemma_lex_cmp_eq(a.drop_first(), b.drop_first());
        if lex_cmp(a, b) == 0 {
            assert(a =~= seq![a[0]] + a.drop_first());
            assert(b =~= seq![b[0]] + b.drop_first());
        }
        if a == b {
            assert(a.drop_first() =~= b.drop_first());
        }
    } else if a.len() > 0 && b.len() > 0 {
        assert(a[0] != b[0]);
    } else if a.len() == 0 && b.len() == 0 {
        assert(a =~= b);
    }
}

/// Swapping the arguments of `lex_cmp` flips its sign.
pub proof fn lemma_lex_cmp_antisym(a: Seq<char>, b: Seq<char>)
    ensures
        lex_cmp(a, b) == -lex_cmp(b, a),
    decreases a.len() + b.len(),
{
    if a.len() > 0 && b.len() > 0 && !(a[0] < b[0]) && !(b[0] < a[0]) {
        lemma_lex_cmp_antisym(a.drop_first(), b.drop_first());
    }
}

/// `lex_cmp` orders transitively: a chain of two non-positive comparisons
/// yields a non-positive comparison.
pub proof fn lemma_lex_cmp_trans(a: Seq<char>, b: Seq<char>, c: Seq<char>)
    requires
        lex_cmp(a, b) <= 0,
        lex_cmp(b, c) <= 0,
    ensures
        lex_cmp(a, c) <= 0,
    decreases a.len() + b.len() + c.len(),
{
    lemma_lex_cmp_eq(a, b);
    lemma_lex_cmp_eq(b, c);
    lemma_lex_cmp_eq(a, c);
    if a == b || b == c {
    } else if a.len() == 0 {
    } else {
        // All three are nonempty here: b cannot be empty since
        // lex_cmp(a, b) <= 0 with a nonempty, and likewise c.
        if !(a[0] < b[0]) && !(b[0] < a[0]) && !(b[0] < c[0]) && !(c[0] < b[0]) {
            lemma_lex_cmp_trans(a.drop_first(), b.drop_first(), c.drop_first());
        }
    }
}

/// Runtime three-way comparison of two strings: -1, 0 or 1 as `lex_cmp`
/// orders their character sequences.
pub fn lex_compare(a: &str, b: &str) -> (r: i8)
    ensures
        r as int == lex_cmp(a@, b@),
{
    let na: usize = a.unicode_len();
    let nb: usize = b.unicode_len();
    let mut i: usize = 0;
    proof {
        assert(a@.skip(0) =~= a@);
        assert(b@.skip(0) =~= b@);
    }
    while i < na && i < nb
        invariant
            i <= na,
            i <= nb,
            na == a@.len(),
            nb == b@.len(),
            lex_cmp(a@, b@) == lex_cmp(a@.skip(i as int), b@.skip(i as int)),
        decreases na - i,
    {
        let ca: char = a.get_char(i);
        let cb: char = b.get_char(i);
        if ca < cb {
            return -1;
        }
        if cb < ca {
            return 1;
        }
        proof {
            assert(a@.skip(i as int).drop_first() =~= a@.skip(i + 1));
            assert(b@.skip(i as int).drop_first() =~= b@.skip(i + 1));
        }
        i = i + 1;
    }
    if na < nb {
        -1
    } else if nb < na {
        1
    } else {
        0
    }
}

/// Runtime computation of the trimmed length: the number of characters left
/// once trailing whitespace is removed.
pub fn trim_len(s: &str) -> (l: usize)
    ensures
        l <= s@.len(),
        trim_key(s@) == s@.take(l as int),
{
    let n: usize = s.unicode_len();
    let mut l: usize = n;
    proof {
        assert(s@.take(n as int) =~= s@);
    }
    while l > 0 && is_space_char(s.get_char(l - 1))
        invariant
            l <= n,
            n == s@.len(),
            trim_key(s@) == trim_key(s@.take(l as int)),
        decreases l,
    {
        proof {
            assert(s@.take(l as int).drop_last() =~= s@.take(l - 1));
        }
        l = l - 1;
    }
    l
}

/// Runtime test of whether two lines agree once trailing whitespace is
/// stripped from both.
pub fn trim_eq(a: &str, b: &str) -> (r: bool)
    ensures
        r == (trim_key(a@) == trim_key(b@)),
{
    let la: usize = trim_len(a);
    let lb: usize = trim_len(b);
    if la != lb {
        proof {
            assert(a@.take(la as int).len() == la as int);
            assert(b@.take(lb as int).len() == lb as int);
        }
        return false;
    }
    let mut i: usize = 0;
    while i < la
        invariant
            i <= la,
            la == lb,
            la <= a@.len(),
            lb <= b@.len(),
            trim_key(a@) == a@.take(la as int),
            trim_key(b@) == b@.take(lb as int),
            forall|j: int| 0 <= j < i ==> a@[j] == b@[j],
        decreases la - i,
    {
        if a.get_char(i) != b.get_char(i) {
            assert(trim_key(a@)[i as int] != trim_key(b@)[i as int]);
            return false;
        }
        i = i + 1;
    }
    proof {
        assert(a@.take(la as int) =~= b@.take(lb as int));
    }
    true
}

/// The character sequences of a sequence of strings.
pub open spec fn views(v: Seq<String>) -> Seq<Seq<char>> {
    v.map_values(|s: String| s@)
}

/// `views` distributes over appending one string.
pub proof fn lemma_views_push(v: Seq<String>, s: String)
    ensures
        views(v.push(s)) =~= views(v).push(s@),
{
}

/// The Unicode lowercase form of a character sequence, named but not spelled
/// out: the mapping fills tables, and only its determinism matters here.
pub uninterp spec fn lower_of(s: Seq<char>) -> Seq<char>;

/// Relies on str::to_lowercase: Unicode lowercasing, a pure function of the
/// character sequence alone.
#[verifier::external_body]
pub(crate) fn to_lower(s: &str) -> (r: String)
    ensures
        r@ == lower_of(s@),
{
    s.to_lowercase()
}

} // verus!
