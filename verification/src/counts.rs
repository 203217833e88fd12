//! Line, word, byte and character counting over a text, plus the fixed-width
//! column formatting the word-count tool prints.

use vstd::prelude::*;
use crate::numfmt::{dec_digits, justify_right, to_decimal, right_justified};
use crate::text::is_space;
use crate::text::is_space_char;

verus! {

/// How many bytes the UTF-8 encoding of `c` takes.
pub open spec fn char_width(c: char) -> nat {
    if c <= '\u{7f}' {
        1
    } else if c <= '\u{7ff}' {
        2
    } else if c <= '\u{ffff}' {
        3
    } else {
        4
    }
}

/// The UTF-8 byte length of a character sequence.
pub open spec fn utf8_len(s: Seq<char>) -> nat
    decreases s.len(),
{
    if s.len() == 0 {
        0
    } else {
        char_width(s[0]) + utf8_len(s.drop_first())
    }
}

/// How many newline characters `s` holds.
pub open spec fn newline_count(s: Seq<char>) -> nat
    decreases s.len(),
{
    if s.len() == 0 {
        0
    } else {
        (if s[0] == '\n' {
            1nat
        } else {
            0nat
        }) + newline_count(s.drop_first())
    }
}

/// How many lines `s` holds, the way a read-one-line-at-a-time loop counts
/// them: one per newline, plus one for a final line left unterminated.
pub open spec fn line_count(s: Seq<char>) -> nat {
    newline_count(s) + if s.len() > 0 && s[s.len() - 1] != '\n' {
        1nat
    } else {
        0nat
    }
}

/// How many words begin in `s`, scanning left to right; `after_space` says
/// whether the position just before `s` was a word boundary.
pub open spec fn word_count_rec(s: Seq<char>, after_space: bool) -> nat
    decreases s.len(),
{
    if s.len() == 0 {
        0
    } else if !is_space(s[0]) && after_space {
        1 + word_count_rec(s.drop_first(), false)
    } else {
        word_count_rec(s.drop_first(), is_space(s[0]))
    }
}

/// How many maximal whitespace-separated words `s` holds.
pub open spec fn word_count(s: Seq<char>) -> nat {
    word_count_rec(s, true)
}

/// A sequence takes at least one byte per character.
proof fn lemma_len_le_utf8_len(s: Seq<char>)
    ensures
        s.len() <= utf8_len(s),
    decreases s.len(),
{
    if s.len() > 0 {
        lemma_len_le_utf8_len(s.drop_first());
    }
}

/// There are at most as many newlines as characters, with room for one more
/// line when the text does not end in a newline.
proof fn lemma_newline_count_le(s: Seq<char>)
    ensures
        newline_count(s) <= s.len(),
        s.len() > 0 && s[s.len() - 1] != '\n' ==> newline_count(s) < s.len(),
    decreases s.len(),
{
    if s.len() > 0 {
        lemma_newline_count_le(s.drop_first());
        if s.len() > 1 {
            assert(s.drop_first()[s.drop_first().len() - 1] == s[s.len() - 1]);
        }
    }
}

/// There are at most as many words as characters.
proof fn lemma_word_count_le(s: Seq<char>, after_space: bool)
    ensures
        word_count_rec(s, after_space) <= s.len(),
    decreases s.len(),
{
    if s.len() > 0 {
        lemma_word_count_le(s.drop_first(), false);
        lemma_word_count_le(s.drop_first(), is_space(s[0]));
    }
}

/// The four totals the word-count tool reports for one input.
#[derive(Debug, PartialEq, Eq, Structural)]
pub struct FileInfo {
    pub num_lines: usize,
    pub num_words: usize,
    pub num_bytes: usize,
    pub num_chars: usize,
}

/// Runtime width of one character's UTF-8 encoding.
fn char_width_of(c: char) -> (w: usize)
    ensures
        w == char_width(c),
{
    if c <= '\u{7f}' {
        1
    } else if c <= '\u{7ff}' {
        2
    } else if c <= '\u{ffff}' {
        3
    } else {
        4
    }
}

/// Counts lines, words, bytes and characters of `text` in one pass, as the
/// word-count tool does over everything it reads from one input.
pub fn count(text: &str) -> (info: FileInfo)
    requires
        utf8_len(text@) <= usize::MAX,
    ensures
        info.num_lines == line_count(text@),
        info.num_words == word_count(text@),
        info.num_bytes == utf8_len(text@),
        info.num_chars == text@.len(),
{
    let n: usize = text.unicode_len();
    let mut num_bytes: usize = 0;
    let mut newlines: usize = 0;
    let mut num_words: usize = 0;
    let mut after_space: bool = true;
    let mut last_char: char = '\n';
    let mut i: usize = 0;
    proof {
        assert(text@.skip(0) =~= text@);
        lemma_len_le_utf8_len(text@);
        lemma_newline_count_le(text@);
        lemma_word_count_le(text@, true);
    }
    while i < n
        invariant
            i <= n,
            n == text@.len(),
            utf8_len(text@) <= usize::MAX,
            newline_count(text@) <= n,
            word_count(text@) <= n,
            n <= utf8_len(text@),
            num_bytes + utf8_len(text@.skip(i as int)) == utf8_len(text@),
            newlines + newline_count(text@.skip(i as int)) == newline_count(text@),
            num_words + word_count_rec(text@.skip(i as int), after_space) == word_count(text@),
            i > 0 ==> last_char == text@[i - 1],
        decreases n - i,
    {
        let c: char = text.get_char(i);
        proof {
            assert(text@.skip(i as int)[0] == text@[i as int]);
            assert(text@.skip(i as int).drop_first() =~= text@.skip(i + 1));
        }
        num_bytes = num_bytes + char_width_of(c);
        if c == '\n' {
            newlines = newlines + 1;
        }
        if !is_space_char(c) && after_space {
            num_words = num_words + 1;
            after_space = false;
        } else {
            after_space = is_space_char(c);
        }
        last_char = c;
        i = i + 1;
    }
    proof {
        assert(text@.skip(n as int) =~= Seq::<char>::empty());
    }
    let num_lines: usize = if n > 0 && last_char != '\n' {
        newlines + 1
    } else {
        newlines
    };
    FileInfo { num_lines, num_words, num_bytes, num_chars: n }
}

/// One output column of the word-count tool: the value right-justified to
/// eight characters when the column is shown, and nothing at all when it is
/// suppressed.
pub fn format_field(value: usize, show: bool) -> (r: String)
    ensures
        show ==> r@ == justify_right(dec_digits(value as nat), 8),
        !show ==> r@ == Seq::<char>::empty(),
{
    if show {
        let ds: String = to_decimal(value);
        right_justified(ds.as_str(), 8)
    } else {
        String::new()
    }
}

} // verus!
