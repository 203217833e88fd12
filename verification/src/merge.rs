//! The lockstep merge comparator: walks two sorted line sequences, classifies
//! each step as belonging to the first input, the second, or both, and
//! renders one delimited output row per step whose column is shown.

use vstd::prelude::*;
use vstd::string::StringExecFns;
use crate::text::{lex_cmp, lex_compare, lower_of, to_lower, views, lemma_views_push, lemma_lex_cmp_eq, lemma_lex_cmp_antisym, lemma_lex_cmp_trans};

verus! {

/// The output column a comparison step falls in: lines only in the first
/// input, lines only in the second, and lines in both.
#[derive(Clone, Copy, Debug, PartialEq, Eq, Structural)]
pub enum Column {
    Col1,
    Col2,
    Col3,
}

/// The comparison key of a line: the line itself, or its lowercase form when
/// comparing case-insensitively.
pub open spec fn key_of(insensitive: bool, s: Seq<char>) -> Seq<char> {
    if insensitive {
        lower_of(s)
    } else {
        s
    }
}

/// Every comparison step of the lockstep walk over `a` and `b`, in order:
/// the column it falls in and the line it prints (the first input's copy for
/// a line present in both).
pub open spec fn merge_steps(a: Seq<Seq<char>>, b: Seq<Seq<char>>, insensitive: bool) -> Seq<
    (Column, Seq<char>),
>
    decreases a.len() + b.len(),
{
    if a.len() == 0 && b.len() == 0 {
        Seq::empty()
    } else if b.len() == 0 {
        seq![(Column::Col1, a[0])] + merge_steps(a.drop_first(), b, insensitive)
    } else if a.len() == 0 {
        seq![(Column::Col2, b[0])] + merge_steps(a, b.drop_first(), insensitive)
    } else {
        let c = lex_cmp(key_of(insensitive, a[0]), key_of(insensitive, b[0]));
        if c == 0 {
            seq![(Column::Col3, a[0])] + merge_steps(a.drop_first(), b.drop_first(), insensitive)
        } else if c < 0 {
            seq![(Column::Col1, a[0])] + merge_steps(a.drop_first(), b, insensitive)
        } else {
            seq![(Column::Col2, b[0])] + merge_steps(a, b.drop_first(), insensitive)
        }
    }
}

/// The ordered fields of one step's output row. A suppressed column drops
/// its rows entirely; a shown later column keeps one leading empty field per
/// earlier column that is itself shown, so suppressed columns reserve no
/// delimiter slot.
pub open spec fn step_fields(
    col: Column,
    text: Seq<char>,
    show1: bool,
    show2: bool,
    show3: bool,
) -> Seq<Seq<char>> {
    match col {
        Column::Col1 => if show1 {
            seq![text]
        } else {
            Seq::empty()
        },
        Column::Col2 => if show2 {
            if show1 {
                seq![Seq::<char>::empty(), text]
            } else {
                seq![text]
            }
        } else {
            Seq::empty()
        },
        Column::Col3 => if show3 {
            if show1 && show2 {
                seq![Seq::<char>::empty(), Seq::<char>::empty(), text]
            } else if show1 || show2 {
                seq![Seq::<char>::empty(), text]
            } else {
                seq![text]
            }
        } else {
            Seq::empty()
        },
    }
}

/// Fields joined with the delimiter: no leading, trailing or doubled
/// delimiter.
pub open spec fn joined(fields: Seq<Seq<char>>, delim: Seq<char>) -> Seq<char>
    decreases fields.len(),
{
    if fields.len() == 0 {
        Seq::empty()
    } else if fields.len() == 1 {
        fields[0]
    } else {
        fields[0] + delim + joined(fields.drop_first(), delim)
    }
}

/// The rows the comparator prints for a sequence of steps: one joined row
/// per step whose field list is nonempty, in step order.
pub open spec fn step_rows(
    steps: Seq<(Column, Seq<char>)>,
    show1: bool,
    show2: bool,
    show3: bool,
    delim: Seq<char>,
) -> Seq<Seq<char>>
    decreases steps.len(),
{
    if steps.len() == 0 {
        Seq::empty()
    } else {
        let f = step_fields(steps[0].0, steps[0].1, show1, show2, show3);
        let rest = step_rows(steps.drop_first(), show1, show2, show3, delim);
        if f.len() == 0 {
            rest
        } else {
            seq![joined(f, delim)] + rest
        }
    }
}

/// Everything the comparator prints for inputs `a` and `b`.
pub open spec fn merge_rows(
    a: Seq<Seq<char>>,
    b: Seq<Seq<char>>,
    insensitive: bool,
    show1: bool,
    show2: bool,
    show3: bool,
    delim: Seq<char>,
) -> Seq<Seq<char>> {
    step_rows(merge_steps(a, b, insensitive), show1, show2, show3, delim)
}

/// How the comparator is configured: which columns are shown, whether keys
/// are folded to lowercase, and the string that separates fields.
pub struct MergeConfig {
    pub show_col1: bool,
    pub show_col2: bool,
    pub show_col3: bool,
    pub insensitive: bool,
    pub delimiter: String,
}

/// Joins fields with the delimiter.
fn join_fields(fields: &Vec<String>, delim: &str) -> (r: String)
    ensures
        r@ == joined(views(fields@), delim@),
{
    let ghost f = views(fields@);
    let mut out: String = String::new();
    if fields.len() == 0 {
        return out;
    }
    out.append(fields[0].as_str());
    let mut k: usize = 1;
    proof {
        assert(Seq::<char>::empty() + f[0] =~= f[0]);
        assert(joined(f.take(1), delim@) == f.take(1)[0]);
    }
    while k < fields.len()
        invariant
            1 <= k <= fields.len(),
            f == views(fields@),
            f.len() == fields.len(),
            out@ == joined(f.take(k as int), delim@),
        decreases fields.len() - k,
    {
        out.append(delim);
        out.append(fields[k].as_str());
        proof {
            lemma_joined_snoc(f.take(k as int), f[k as int], delim@);
            assert(f.take(k as int).push(f[k as int]) =~= f.take(k + 1));
        }
        k = k + 1;
    }
    proof {
        assert(f.take(f.len() as int) =~= f);
    }
    out
}

/// Appending one more field appends one delimiter and the field.
proof fn lemma_joined_snoc(fields: Seq<Seq<char>>, x: Seq<char>, delim: Seq<char>)
    requires
        fields.len() >= 1,
    ensures
        joined(fields.push(x), delim) == joined(fields, delim) + delim + x,
    decreases fields.len(),
{
    let q = fields.push(x);
    if fields.len() == 1 {
        assert(q.drop_first() =~= seq![x]);
        assert(joined(q, delim) == q[0] + delim + joined(q.drop_first(), delim));
    } else {
        lemma_joined_snoc(fields.drop_first(), x, delim);
        assert(q.drop_first() =~= fields.drop_first().push(x));
        assert(joined(q, delim) == q[0] + delim + joined(q.drop_first(), delim));
        assert((fields[0] + delim + joined(fields.drop_first(), delim)) + delim + x =~= fields[0]
            + delim + (joined(fields.drop_first(), delim) + delim + x));
    }
}

/// Renders one comparison step, or nothing when every field of its row is
/// suppressed.
fn render_step(col: Column, text: &String, config: &MergeConfig) -> (r: Option<String>)
    ensures
        ({
            let f = step_fields(col, text@, config.show_col1, config.show_col2, config.show_col3);
            match r {
                Option::None => f.len() == 0,
                Option::Some(row) => f.len() > 0 && row@ == joined(f, config.delimiter@),
            }
        }),
{
    let ghost f = step_fields(col, text@, config.show_col1, config.show_col2, config.show_col3);
    let mut fields: Vec<String> = Vec::new();
    match col {
        Column::Col1 => {
            if config.show_col1 {
                fields.push(text.clone());
            }
        },
        Column::Col2 => {
            if config.show_col2 {
                if config.show_col1 {
                    fields.push(String::new());
                }
                fields.push(text.clone());
            }
        },
        Column::Col3 => {
            if config.show_col3 {
                if config.show_col1 {
                    fields.push(String::new());
                }
                if config.show_col2 {
                    fields.push(String::new());
                }
                fields.push(text.clone());
            }
        },
    }
    proof {
        assert(views(fields@) =~= f);
    }
    if fields.len() == 0 {
        None
    } else {
        Some(join_fields(&fields, config.delimiter.as_str()))
    }
}

/// The comparison keys of every line: the lines themselves, or their
/// lowercase forms under case-insensitive comparison.
fn make_keys(lines: &Vec<String>, insensitive: bool) -> (keys: Vec<String>)
    ensures
        keys@.len() == lines@.len(),
        forall|k: int|
            0 <= k < keys@.len() ==> keys@[k]@ == key_of(insensitive, #[trigger] lines@[k]@),
{
    let mut keys: Vec<String> = Vec::new();
    let mut i: usize = 0;
    while i < lines.len()
        invariant
            i <= lines.len(),
            keys@.len() == i,
            forall|k: int|
                0 <= k < i ==> keys@[k]@ == key_of(insensitive, #[trigger] lines@[k]@),
        decreases lines.len() - i,
    {
        if insensitive {
            keys.push(to_lower(lines[i].as_str()));
        } else {
            keys.push(lines[i].clone());
        }
        i = i + 1;
    }
    keys
}

/// Walks `lines1` and `lines2` in lockstep and returns every output row, in
/// step order: rows for lines only in the first input, only in the second,
/// and in both, with suppressed columns dropped and the rest joined by the
/// configured delimiter. Both inputs are expected sorted by comparison key;
/// on unsorted input the walk still terminates and the rows follow the same
/// step rule.
pub fn merge(lines1: &Vec<String>, lines2: &Vec<String>, config: &MergeConfig) -> (rows: Vec<
    String,
>)
    ensures
        views(rows@) == merge_rows(
            views(lines1@),
            views(lines2@),
            config.insensitive,
            config.show_col1,
            config.show_col2,
            config.show_col3,
            config.delimiter@,
        ),
{
    let ghost a = views(lines1@);
    let ghost b = views(lines2@);
    let keys1: Vec<String> = make_keys(lines1, config.insensitive);
    let keys2: Vec<String> = make_keys(lines2, config.insensitive);
    let n1: usize = lines1.len();
    let n2: usize = lines2.len();
    let mut rows: Vec<String> = Vec::new();
    let mut i: usize = 0;
    let mut j: usize = 0;
    proof {
        assert(a.skip(0) =~= a);
        assert(b.skip(0) =~= b);
        assert(views(rows@) =~= Seq::<Seq<char>>::empty());
    }
    while i < n1 || j < n2
        invariant
            i <= n1,
            j <= n2,
            n1 == a.len(),
            n2 == b.len(),
            a == views(lines1@),
            b == views(lines2@),
            lines1@.len() == n1,
            lines2@.len() == n2,
            keys1@.len() == n1,
            keys2@.len() == n2,
            forall|k: int|
                0 <= k < n1 ==> keys1@[k]@ == key_of(config.insensitive, #[trigger] lines1@[k]@),
            forall|k: int|
                0 <= k < n2 ==> keys2@[k]@ == key_of(config.insensitive, #[trigger] lines2@[k]@),
            merge_rows(
                a,
                b,
                config.insensitive,
                config.show_col1,
                config.show_col2,
                config.show_col3,
                config.delimiter@,
            ) == views(rows@) + step_rows(
                merge_steps(a.skip(i as int), b.skip(j as int), config.insensitive),
                config.show_col1,
                config.show_col2,
                config.show_col3,
                config.delimiter@,
            ),
        decreases n1 - i + n2 - j,
    {
        let ghost sa = a.skip(i as int);
        let ghost sb = b.skip(j as int);
        let ghost ins = config.insensitive;
        let take_first: bool;
        let is_both: bool;
        if j >= n2 {
            take_first = true;
            is_both = false;
        } else if i >= n1 {
            take_first = false;
            is_both = false;
        } else {
            let c: i8 = lex_compare(keys1[i].as_str(), keys2[j].as_str());
            take_first = c <= 0;
            is_both = c == 0;
            proof {
                assert(keys1@[i as int]@ == key_of(ins, lines1@[i as int]@));
                assert(keys2@[j as int]@ == key_of(ins, lines2@[j as int]@));
                assert(a[i as int] == lines1@[i as int]@);
                assert(b[j as int] == lines2@[j as int]@);
                assert(c as int == lex_cmp(key_of(ins, sa[0]), key_of(ins, sb[0])));
            }
        }
        proof {
            if i < n1 {
                assert(sa[0] == a[i as int]);
                assert(sa.drop_first() =~= a.skip(i + 1));
            }
            if j < n2 {
                assert(sb[0] == b[j as int]);
                assert(sb.drop_first() =~= b.skip(j + 1));
            }
        }
        let step_col: Column;
        let row: Option<String>;
        let ghost text: Seq<char>;
        let ghost tail: Seq<(Column, Seq<char>)>;
        if take_first {
            step_col = if is_both {
                Column::Col3
            } else {
                Column::Col1
            };
            row = render_step(step_col, &lines1[i], config);
            proof {
                text = sa[0];
                tail = if is_both {
                    merge_steps(a.skip(i + 1), b.skip(j + 1), ins)
                } else {
                    merge_steps(a.skip(i + 1), sb, ins)
                };
                assert(merge_steps(sa, sb, ins) == seq![(step_col, text)] + tail);
            }
            i = i + 1;
            if is_both {
                j = j + 1;
            }
        } else {
            step_col = Column::Col2;
            row = render_step(step_col, &lines2[j], config);
            proof {
                text = sb[0];
                tail = merge_steps(sa, b.skip(j + 1), ins);
                assert(merge_steps(sa, sb, ins) == seq![(step_col, text)] + tail);
            }
            j = j + 1;
        }
        proof {
            let s1 = config.show_col1;
            let s2 = config.show_col2;
            let s3 = config.show_col3;
            let d = config.delimiter@;
            let old_steps = merge_steps(sa, sb, ins);
            assert(old_steps[0] == (step_col, text));
            assert(old_steps.drop_first() =~= tail);
            assert(tail == merge_steps(a.skip(i as int), b.skip(j as int), ins));
            let f = step_fields(step_col, text, s1, s2, s3);
            assert(step_rows(old_steps, s1, s2, s3, d) == if f.len() == 0 {
                step_rows(tail, s1, s2, s3, d)
            } else {
                seq![joined(f, d)] + step_rows(tail, s1, s2, s3, d)
            });
        }
        match row {
            Option::Some(r) => {
                proof {
                    lemma_views_push(rows@, r);
                    let d = config.delimiter@;
                    let s1 = config.show_col1;
                    let s2 = config.show_col2;
                    let s3 = config.show_col3;
                    assert(views(rows@).push(r@) + step_rows(tail, s1, s2, s3, d) =~= views(rows@)
                        + (seq![r@] + step_rows(tail, s1, s2, s3, d)));
                }
                rows.push(r);
            },
            Option::None => {
            },
        }
    }
    proof {
        assert(a.skip(n1 as int) =~= Seq::<Seq<char>>::empty());
        assert(b.skip(n2 as int) =~= Seq::<Seq<char>>::empty());
        assert(views(rows@) + Seq::<Seq<char>>::empty() =~= views(rows@));
    }
    rows
}


/// No rows at all come from a step sequence when every column is suppressed.
proof fn lemma_step_rows_all_suppressed(steps: Seq<(Column, Seq<char>)>, delim: Seq<char>)
    ensures
        step_rows(steps, false, false, false, delim) =~= Seq::<Seq<char>>::empty(),
    decreases steps.len(),
{
    if steps.len() > 0 {
        lemma_step_rows_all_suppressed(steps.drop_first(), delim);
    }
}

/// Suppressing all three columns yields zero output rows, whatever the
/// inputs.
pub proof fn lemma_merge_all_suppressed(
    a: Seq<Seq<char>>,
    b: Seq<Seq<char>>,
    insensitive: bool,
    delim: Seq<char>,
)
    ensures
        merge_rows(a, b, insensitive, false, false, false, delim) == Seq::<Seq<char>>::empty(),
{
    lemma_step_rows_all_suppressed(merge_steps(a, b, insensitive), delim);
}

/// How many steps fall in the shared column.
pub open spec fn both_count(steps: Seq<(Column, Seq<char>)>) -> nat
    decreases steps.len(),
{
    if steps.len() == 0 {
        0
    } else {
        (if steps[0].0 is Col3 {
            1nat
        } else {
            0nat
        }) + both_count(steps.drop_first())
    }
}

/// How many steps consume a line of the second input: one per step in its
/// own column or the shared column.
pub open spec fn second_count(steps: Seq<(Column, Seq<char>)>) -> nat
    decreases steps.len(),
{
    if steps.len() == 0 {
        0
    } else {
        (if steps[0].0 is Col1 {
            0nat
        } else {
            1nat
        }) + second_count(steps.drop_first())
    }
}

/// The texts of the steps that consume a line of the first input (its own
/// column and the shared column), in step order.
pub open spec fn first_input_lines(steps: Seq<(Column, Seq<char>)>) -> Seq<Seq<char>>
    decreases steps.len(),
{
    if steps.len() == 0 {
        Seq::empty()
    } else if steps[0].0 is Col2 {
        first_input_lines(steps.drop_first())
    } else {
        seq![steps[0].1] + first_input_lines(steps.drop_first())
    }
}

/// The step statistics unfold over one leading step.
proof fn lemma_step_stats_cons(h: (Column, Seq<char>), t: Seq<(Column, Seq<char>)>)
    ensures
        both_count(seq![h] + t) == (if h.0 is Col3 {
            1nat
        } else {
            0nat
        }) + both_count(t),
        second_count(seq![h] + t) == (if h.0 is Col1 {
            0nat
        } else {
            1nat
        }) + second_count(t),
        h.0 is Col2 ==> first_input_lines(seq![h] + t) == first_input_lines(t),
        !(h.0 is Col2) ==> first_input_lines(seq![h] + t) =~= seq![h.1] + first_input_lines(t),
{
    assert((seq![h] + t)[0] == h);
    assert((seq![h] + t).drop_first() =~= t);
}

/// The lockstep walk consumes every line of both inputs exactly once: it
/// takes one step per line of either input, except that one step serves
/// both inputs for each matching pair; the first input's lines reappear,
/// in order, as the texts of exactly the steps in its own column and the
/// shared column; and the second input's lines are consumed by exactly the
/// steps in its own column and the shared column.
pub proof fn lemma_merge_completeness(a: Seq<Seq<char>>, b: Seq<Seq<char>>, insensitive: bool)
    ensures
        merge_steps(a, b, insensitive).len() + both_count(merge_steps(a, b, insensitive)) == a.len()
            + b.len(),
        first_input_lines(merge_steps(a, b, insensitive)) == a,
        second_count(merge_steps(a, b, insensitive)) == b.len(),
    decreases a.len() + b.len(),
{
    let steps = merge_steps(a, b, insensitive);
    if a.len() == 0 && b.len() == 0 {
        assert(first_input_lines(steps) =~= a);
    } else if b.len() == 0 {
        lemma_merge_completeness(a.drop_first(), b, insensitive);
        lemma_step_stats_cons((Column::Col1, a[0]), merge_steps(a.drop_first(), b, insensitive));
        assert(seq![a[0]] + a.drop_first() =~= a);
    } else if a.len() == 0 {
        lemma_merge_completeness(a, b.drop_first(), insensitive);
        lemma_step_stats_cons((Column::Col2, b[0]), merge_steps(a, b.drop_first(), insensitive));
    } else {
        let c = lex_cmp(key_of(insensitive, a[0]), key_of(insensitive, b[0]));
        if c == 0 {
            lemma_merge_completeness(a.drop_first(), b.drop_first(), insensitive);
            lemma_step_stats_cons(
                (Column::Col3, a[0]),
                merge_steps(a.drop_first(), b.drop_first(), insensitive),
            );
            assert(seq![a[0]] + a.drop_first() =~= a);
        } else if c < 0 {
            lemma_merge_completeness(a.drop_first(), b, insensitive);
            lemma_step_stats_cons(
                (Column::Col1, a[0]),
                merge_steps(a.drop_first(), b, insensitive),
            );
            assert(seq![a[0]] + a.drop_first() =~= a);
        } else {
            lemma_merge_completeness(a, b.drop_first(), insensitive);
            lemma_step_stats_cons(
                (Column::Col2, b[0]),
                merge_steps(a, b.drop_first(), insensitive),
            );
        }
    }
}

/// A line sequence sorted in non-decreasing comparison-key order.
pub open spec fn sorted_by_key(x: Seq<Seq<char>>, insensitive: bool) -> bool {
    forall|k: int|
        0 <= k < x.len() - 1 ==> #[trigger] lex_cmp(
            key_of(insensitive, x[k]),
            key_of(insensitive, x[k + 1]),
        ) <= 0
}

/// Steps whose emitted lines come in non-decreasing comparison-key order.
pub open spec fn steps_sorted(steps: Seq<(Column, Seq<char>)>, insensitive: bool) -> bool {
    forall|k: int|
        0 <= k < steps.len() - 1 ==> #[trigger] lex_cmp(
            key_of(insensitive, steps[k].1),
            key_of(insensitive, steps[k + 1].1),
        ) <= 0
}

/// Dropping the first line keeps a sequence sorted.
proof fn lemma_sorted_drop(x: Seq<Seq<char>>, insensitive: bool)
    requires
        sorted_by_key(x, insensitive),
        x.len() > 0,
    ensures
        sorted_by_key(x.drop_first(), insensitive),
{
    let t = x.drop_first();
    assert forall|k: int| 0 <= k < t.len() - 1 implies #[trigger] lex_cmp(
        key_of(insensitive, t[k]),
        key_of(insensitive, t[k + 1]),
    ) <= 0 by {
        assert(t[k] == x[k + 1]);
        assert(t[k + 1] == x[k + 2]);
        assert(lex_cmp(key_of(insensitive, x[k + 1]), key_of(insensitive, x[k + 2])) <= 0);
    }
}

/// A step prepended to sorted steps stays sorted when its key is at most
/// the first of theirs.
proof fn lemma_steps_sorted_cons(
    h: (Column, Seq<char>),
    t: Seq<(Column, Seq<char>)>,
    insensitive: bool,
)
    requires
        steps_sorted(t, insensitive),
        t.len() > 0 ==> lex_cmp(key_of(insensitive, h.1), key_of(insensitive, t[0].1)) <= 0,
    ensures
        steps_sorted(seq![h] + t, insensitive),
{
    let s = seq![h] + t;
    assert forall|k: int| 0 <= k < s.len() - 1 implies #[trigger] lex_cmp(
        key_of(insensitive, s[k].1),
        key_of(insensitive, s[k + 1].1),
    ) <= 0 by {
        if k == 0 {
            assert(s[0] == h);
            assert(s[1] == t[0]);
        } else {
            let j = k - 1;
            assert(s[j + 1] == t[j]);
            assert(s[j + 2] == t[j + 1]);
            assert(lex_cmp(key_of(insensitive, t[j].1), key_of(insensitive, t[j + 1].1)) <= 0);
        }
    }
}

/// The inductive heart of the ordering law: besides sortedness, the first
/// step's key equals the key of one input's head line.
proof fn lemma_merge_ordering_rec(a: Seq<Seq<char>>, b: Seq<Seq<char>>, insensitive: bool)
    requires
        sorted_by_key(a, insensitive),
        sorted_by_key(b, insensitive),
    ensures
        steps_sorted(merge_steps(a, b, insensitive), insensitive),
        merge_steps(a, b, insensitive).len() > 0 ==> ((a.len() > 0 && key_of(
            insensitive,
            merge_steps(a, b, insensitive)[0].1,
        ) == key_of(insensitive, a[0])) || (b.len() > 0 && key_of(
            insensitive,
            merge_steps(a, b, insensitive)[0].1,
        ) == key_of(insensitive, b[0]))),
    decreases a.len() + b.len(),
{
    let steps = merge_steps(a, b, insensitive);
    if a.len() == 0 && b.len() == 0 {
    } else if b.len() == 0 {
        lemma_sorted_drop(a, insensitive);
        lemma_merge_ordering_rec(a.drop_first(), b, insensitive);
        let t = merge_steps(a.drop_first(), b, insensitive);
        if t.len() > 0 {
            assert(a.drop_first()[0] == a[1]);
            assert(lex_cmp(key_of(insensitive, a[0]), key_of(insensitive, a[1])) <= 0);
        }
        lemma_steps_sorted_cons((Column::Col1, a[0]), t, insensitive);
        assert(steps[0] == (Column::Col1, a[0]));
    } else if a.len() == 0 {
        lemma_sorted_drop(b, insensitive);
        lemma_merge_ordering_rec(a, b.drop_first(), insensitive);
        let t = merge_steps(a, b.drop_first(), insensitive);
        if t.len() > 0 {
            assert(b.drop_first()[0] == b[1]);
            assert(lex_cmp(key_of(insensitive, b[0]), key_of(insensitive, b[1])) <= 0);
        }
        lemma_steps_sorted_cons((Column::Col2, b[0]), t, insensitive);
        assert(steps[0] == (Column::Col2, b[0]));
    } else {
        let ka = key_of(insensitive, a[0]);
        let kb = key_of(insensitive, b[0]);
        let c = lex_cmp(ka, kb);
        lemma_lex_cmp_eq(ka, kb);
        lemma_lex_cmp_antisym(ka, kb);
        if c == 0 {
            lemma_sorted_drop(a, insensitive);
            lemma_sorted_drop(b, insensitive);
            lemma_merge_ordering_rec(a.drop_first(), b.drop_first(), insensitive);
            let t = merge_steps(a.drop_first(), b.drop_first(), insensitive);
            if t.len() > 0 {
                if a.drop_first().len() > 0 && key_of(insensitive, t[0].1) == key_of(
                    insensitive,
                    a.drop_first()[0],
                ) {
                    assert(a.drop_first()[0] == a[1]);
                    assert(lex_cmp(key_of(insensitive, a[0]), key_of(insensitive, a[1])) <= 0);
                } else {
                    assert(b.drop_first()[0] == b[1]);
                    assert(lex_cmp(key_of(insensitive, b[0]), key_of(insensitive, b[1])) <= 0);
                }
            }
            lemma_steps_sorted_cons((Column::Col3, a[0]), t, insensitive);
            assert(steps[0] == (Column::Col3, a[0]));
        } else if c < 0 {
            lemma_sorted_drop(a, insensitive);
            lemma_merge_ordering_rec(a.drop_first(), b, insensitive);
            let t = merge_steps(a.drop_first(), b, insensitive);
            if t.len() > 0 {
                if a.drop_first().len() > 0 && key_of(insensitive, t[0].1) == key_of(
                    insensitive,
                    a.drop_first()[0],
                ) {
                    assert(a.drop_first()[0] == a[1]);
                    assert(lex_cmp(key_of(insensitive, a[0]), key_of(insensitive, a[1])) <= 0);
                }
            }
            lemma_steps_sorted_cons((Column::Col1, a[0]), t, insensitive);
            assert(steps[0] == (Column::Col1, a[0]));
        } else {
            lemma_sorted_drop(b, insensitive);
            lemma_merge_ordering_rec(a, b.drop_first(), insensitive);
            let t = merge_steps(a, b.drop_first(), insensitive);
            if t.len() > 0 {
                if b.drop_first().len() > 0 && key_of(insensitive, t[0].1) == key_of(
                    insensitive,
                    b.drop_first()[0],
                ) {
                    assert(b.drop_first()[0] == b[1]);
                    assert(lex_cmp(key_of(insensitive, b[0]), key_of(insensitive, b[1])) <= 0);
                }
            }
            lemma_steps_sorted_cons((Column::Col2, b[0]), t, insensitive);
            assert(steps[0] == (Column::Col2, b[0]));
        }
    }
}

/// Two step keys any distance apart still come in order.
proof fn lemma_steps_sorted_pair(
    steps: Seq<(Column, Seq<char>)>,
    insensitive: bool,
    k1: int,
    k2: int,
)
    requires
        steps_sorted(steps, insensitive),
        0 <= k1 <= k2 < steps.len(),
    ensures
        lex_cmp(key_of(insensitive, steps[k1].1), key_of(insensitive, steps[k2].1)) <= 0,
    decreases k2 - k1,
{
    if k1 == k2 {
        lemma_lex_cmp_eq(key_of(insensitive, steps[k1].1), key_of(insensitive, steps[k2].1));
    } else {
        lemma_steps_sorted_pair(steps, insensitive, k1, k2 - 1);
        let j = k2 - 1;
        assert(lex_cmp(key_of(insensitive, steps[j].1), key_of(insensitive, steps[j + 1].1)) <= 0);
        lemma_lex_cmp_trans(
            key_of(insensitive, steps[k1].1),
            key_of(insensitive, steps[k2 - 1].1),
            key_of(insensitive, steps[k2].1),
        );
    }
}

/// On inputs sorted by comparison key, the lockstep walk emits its lines in
/// non-decreasing comparison-key order: the standard three-way merge order.
/// The order holds between any two steps, so it survives dropping the steps
/// of a suppressed column.
pub proof fn lemma_merge_ordering(a: Seq<Seq<char>>, b: Seq<Seq<char>>, insensitive: bool)
    requires
        sorted_by_key(a, insensitive),
        sorted_by_key(b, insensitive),
    ensures
        steps_sorted(merge_steps(a, b, insensitive), insensitive),
        forall|k1: int, k2: int|
            0 <= k1 <= k2 < merge_steps(a, b, insensitive).len() ==> #[trigger] lex_cmp(
                key_of(insensitive, merge_steps(a, b, insensitive)[k1].1),
                key_of(insensitive, merge_steps(a, b, insensitive)[k2].1),
            ) <= 0,
{
    lemma_merge_ordering_rec(a, b, insensitive);
    let steps = merge_steps(a, b, insensitive);
    assert forall|k1: int, k2: int| 0 <= k1 <= k2 < steps.len() implies #[trigger] lex_cmp(
        key_of(insensitive, steps[k1].1),
        key_of(insensitive, steps[k2].1),
    ) <= 0 by {
        lemma_steps_sorted_pair(steps, insensitive, k1, k2);
    }
}

} // verus!
