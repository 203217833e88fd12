//! The adjacent deduplicator: collapses maximal blocks of consecutive lines
//! whose trailing-whitespace-trimmed forms agree into one output line each,
//! optionally prefixed with the block's occurrence count.

use vstd::prelude::*;
use vstd::string::StringExecFns;
use crate::numfmt::{dec_digits, justify_right, to_decimal, right_justified};
use crate::text::{trim_key, trim_eq, views, lemma_views_push};

verus! {

/// The runs of `lines`: one `(representative, count)` pair per maximal block
/// of consecutive lines with equal trimmed forms. The representative is the
/// block's first line, kept byte for byte.
pub open spec fn runs_of(lines: Seq<Seq<char>>) -> Seq<(Seq<char>, nat)>
    decreases lines.len(),
{
    if lines.len() == 0 {
        Seq::empty()
    } else {
        let rest = runs_of(lines.drop_first());
        if lines.len() >= 2 && trim_key(lines[1]) == trim_key(lines[0]) {
            seq![(lines[0], (rest[0].1 + 1) as nat)] + rest.drop_first()
        } else {
            seq![(lines[0], 1nat)] + rest
        }
    }
}

/// A nonempty input has runs, the first led by the first line.
pub proof fn lemma_runs_first(lines: Seq<Seq<char>>)
    requires
        lines.len() > 0,
    ensures
        runs_of(lines).len() > 0,
        runs_of(lines)[0].0 == lines[0],
        1 <= runs_of(lines)[0].1 <= lines.len(),
    decreases lines.len(),
{
    if lines.len() >= 2 {
        lemma_runs_first(lines.drop_first());
    }
}

/// How `runs_of` grows when one more line arrives: it either thickens the
/// last run, when the new line's trimmed form matches the previous line's,
/// or opens a fresh run of one.
pub proof fn lemma_runs_push(p: Seq<Seq<char>>, x: Seq<char>)
    ensures
        p.len() == 0 ==> runs_of(p.push(x)) =~= seq![(x, 1nat)],
        p.len() > 0 && trim_key(p[p.len() - 1]) == trim_key(x) ==> runs_of(p.push(x)) =~= runs_of(
            p,
        ).update(runs_of(p).len() - 1, (runs_of(p).last().0, (runs_of(p).last().1 + 1) as nat)),
        p.len() > 0 && trim_key(p[p.len() - 1]) != trim_key(x) ==> runs_of(p.push(x)) =~= runs_of(
            p,
        ).push((x, 1nat)),
    decreases p.len(),
{
    let q = p.push(x);
    if p.len() == 0 {
        assert(q.len() == 1);
        assert(q.drop_first() =~= Seq::<Seq<char>>::empty());
        assert(runs_of(q.drop_first()) =~= Seq::<(Seq<char>, nat)>::empty());
        assert(runs_of(q) =~= seq![(q[0], 1nat)] + runs_of(q.drop_first()));
        assert(runs_of(q) =~= seq![(x, 1nat)]);
    } else {
        lemma_runs_first(p);
        assert(q.drop_first() =~= p.drop_first().push(x));
        lemma_runs_push(p.drop_first(), x);
        if p.len() >= 2 {
            lemma_runs_first(p.drop_first());
            assert(p.drop_first()[p.drop_first().len() - 1] == p[p.len() - 1]);
            assert(q[1] == p[1]);
        } else {
            assert(p.drop_first().len() == 0);
            assert(q[1] == x);
        }
    }
}

/// One formatted output line for a run when counts are shown: the count
/// right-justified to four characters, one space, then the representative.
pub open spec fn count_prefixed(rep: Seq<char>, k: nat) -> Seq<char> {
    justify_right(dec_digits(k), 4) + seq![' '] + rep
}

/// The output line for one run.
pub open spec fn run_row(with_count: bool, r: (Seq<char>, nat)) -> Seq<char> {
    if with_count {
        count_prefixed(r.0, r.1)
    } else {
        r.0
    }
}

/// The output lines for a sequence of runs, in order.
pub open spec fn rows_for(runs: Seq<(Seq<char>, nat)>, with_count: bool) -> Seq<Seq<char>> {
    runs.map_values(|r: (Seq<char>, nat)| run_row(with_count, r))
}

/// Everything the deduplicator writes for `lines`: one row per run, in input
/// order.
pub open spec fn dedup_rows(lines: Seq<Seq<char>>, with_count: bool) -> Seq<Seq<char>> {
    rows_for(runs_of(lines), with_count)
}

/// `rows_for` renders the last run last.
proof fn lemma_rows_for_snoc(runs: Seq<(Seq<char>, nat)>, with_count: bool)
    requires
        runs.len() > 0,
    ensures
        rows_for(runs, with_count) =~= rows_for(runs.drop_last(), with_count).push(
            run_row(with_count, runs.last()),
        ),
{
}

/// Renders one run as its output line.
fn emit_row(rep: &String, k: usize, with_count: bool) -> (r: String)
    ensures
        r@ == run_row(with_count, (rep@, k as nat)),
{
    if with_count {
        let ds: String = to_decimal(k);
        let mut out: String = right_justified(ds.as_str(), 4);
        out.append(" ");
        out.append(rep.as_str());
        proof {
            reveal_strlit(" ");
            assert(" "@ =~= seq![' ']);
            assert(out@ =~= count_prefixed(rep@, k as nat));
        }
        out
    } else {
        rep.clone()
    }
}

/// Collapses every maximal block of consecutive lines with equal trimmed
/// forms into one row: the block's first line verbatim, or, with
/// `with_count`, that line prefixed by the block's size.
pub fn dedup(lines: &Vec<String>, with_count: bool) -> (rows: Vec<String>)
    ensures
        views(rows@) == dedup_rows(views(lines@), with_count),
{
    let ghost l = views(lines@);
    let n: usize = lines.len();
    let mut rows: Vec<String> = Vec::new();
    if n == 0 {
        proof {
            assert(views(rows@) =~= dedup_rows(l, with_count));
        }
        return rows;
    }
    let mut rep: String = lines[0].clone();
    let mut cnt: usize = 1;
    let mut i: usize = 1;
    proof {
        assert(l.take(1) =~= Seq::<Seq<char>>::empty().push(l[0]));
        lemma_runs_push(Seq::<Seq<char>>::empty(), l[0]);
        assert(runs_of(l.take(1)) =~= seq![(l[0], 1nat)]);
        assert(views(rows@) =~= rows_for(runs_of(l.take(1)).drop_last(), with_count));
    }
    while i < n
        invariant
            1 <= cnt <= i <= n,
            n == l.len(),
            l == views(lines@),
            lines@.len() == n,
            runs_of(l.take(i as int)).len() > 0,
            runs_of(l.take(i as int)).last() == (rep@, cnt as nat),
            trim_key(l[i - 1]) == trim_key(rep@),
            views(rows@) == rows_for(runs_of(l.take(i as int)).drop_last(), with_count),
        decreases n - i,
    {
        let ghost prefix = l.take(i as int);
        let ghost runs_prev = runs_of(prefix);
        proof {
            assert(l.take(i + 1) =~= prefix.push(l[i as int]));
            assert(prefix[prefix.len() - 1] == l[i - 1]);
            lemma_runs_push(prefix, l[i as int]);
        }
        if trim_eq(lines[i].as_str(), rep.as_str()) {
            cnt = cnt + 1;
            proof {
                let runs_now = runs_of(l.take(i + 1));
                assert(runs_now == runs_prev.update(runs_prev.len() - 1, (rep@, cnt as nat)));
                assert(runs_now.drop_last() =~= runs_prev.drop_last());
            }
        } else {
            let row: String = emit_row(&rep, cnt, with_count);
            rows.push(row);
            rep = lines[i].clone();
            cnt = 1;
            proof {
                let runs_now = runs_of(l.take(i + 1));
                assert(runs_now == runs_prev.push((rep@, 1nat)));
                assert(runs_now.drop_last() =~= runs_prev);
                lemma_views_push(rows@.drop_last(), row);
                assert(rows@.drop_last().push(row) =~= rows@);
                lemma_rows_for_snoc(runs_prev, with_count);
                assert(views(rows@) =~= rows_for(runs_now.drop_last(), with_count));
            }
        }
        i = i + 1;
    }
    let last_row: String = emit_row(&rep, cnt, with_count);
    rows.push(last_row);
    proof {
        assert(l.take(n as int) =~= l);
        let runs_all = runs_of(l);
        lemma_views_push(rows@.drop_last(), last_row);
        assert(rows@.drop_last().push(last_row) =~= rows@);
        lemma_rows_for_snoc(runs_all, with_count);
        assert(views(rows@) =~= dedup_rows(l, with_count));
    }
    rows
}


/// The total of the run counts.
pub open spec fn counts_total(runs: Seq<(Seq<char>, nat)>) -> nat
    decreases runs.len(),
{
    if runs.len() == 0 {
        0
    } else {
        runs[0].1 + counts_total(runs.drop_first())
    }
}

/// `x` repeated `n` times.
pub open spec fn repeated(x: Seq<char>, n: nat) -> Seq<Seq<char>>
    decreases n,
{
    if n == 0 {
        Seq::empty()
    } else {
        seq![x] + repeated(x, (n - 1) as nat)
    }
}

/// The runs written back out at the key level: each run's trimmed
/// representative repeated as often as the run counted.
pub open spec fn rle_expand(runs: Seq<(Seq<char>, nat)>) -> Seq<Seq<char>>
    decreases runs.len(),
{
    if runs.len() == 0 {
        Seq::empty()
    } else {
        repeated(trim_key(runs[0].0), runs[0].1) + rle_expand(runs.drop_first())
    }
}

/// The trimmed comparison forms of every line.
pub open spec fn trim_keys(lines: Seq<Seq<char>>) -> Seq<Seq<char>> {
    lines.map_values(|s: Seq<char>| trim_key(s))
}

/// The runs exactly partition the input: every run holds at least one line,
/// the counts sum to the input length, expanding each run's trimmed
/// representative by its count re-spells the input's trimmed forms exactly,
/// and neighbouring runs carry distinct trimmed forms (no block is split).
pub proof fn lemma_dedup_partition(lines: Seq<Seq<char>>)
    ensures
        counts_total(runs_of(lines)) == lines.len(),
        forall|k: int| 0 <= k < runs_of(lines).len() ==> 1 <= (#[trigger] runs_of(lines)[k]).1,
        rle_expand(runs_of(lines)) == trim_keys(lines),
        forall|k: int|
            0 <= k < runs_of(lines).len() - 1 ==> trim_key(#[trigger] runs_of(lines)[k].0)
                != trim_key(runs_of(lines)[k + 1].0),
    decreases lines.len(),
{
    let runs = runs_of(lines);
    if lines.len() == 0 {
        assert(rle_expand(runs) =~= trim_keys(lines));
    } else {
        let tail = lines.drop_first();
        let rest = runs_of(tail);
        lemma_dedup_partition(tail);
        let k0 = trim_key(lines[0]);
        assert(trim_keys(lines) =~= seq![k0] + trim_keys(tail));
        if lines.len() >= 2 && trim_key(lines[1]) == trim_key(lines[0]) {
            lemma_runs_first(tail);
            assert(rest[0].0 == lines[1]);
            assert(runs == seq![(lines[0], (rest[0].1 + 1) as nat)] + rest.drop_first());
            assert(runs.len() == rest.len());
            assert forall|k: int| 1 <= k < runs.len() implies runs[k] == rest[k] by {
                assert(runs[k] == rest.drop_first()[k - 1]);
            }
            // the counts still sum to the input length
            assert(runs.drop_first() =~= rest.drop_first());
            assert(counts_total(rest) == rest[0].1 + counts_total(rest.drop_first()));
            assert(counts_total(runs) == runs[0].1 + counts_total(runs.drop_first()));
            // the expansion gains exactly the new first line's key
            assert(repeated(k0, (rest[0].1 + 1) as nat) == seq![k0] + repeated(k0, rest[0].1));
            assert(trim_key(rest[0].0) == k0);
            assert(rle_expand(rest) == repeated(k0, rest[0].1) + rle_expand(rest.drop_first()));
            assert(rle_expand(runs) == repeated(k0, (rest[0].1 + 1) as nat) + rle_expand(
                runs.drop_first(),
            ));
            assert(rle_expand(runs) =~= seq![k0] + rle_expand(rest));
            assert(rle_expand(runs) =~= trim_keys(lines));
            // neighbouring runs still differ
            assert forall|k: int|
                0 <= k < runs.len() - 1 implies trim_key(#[trigger] runs[k].0) != trim_key(
                runs[k + 1].0,
            ) by {
                if k == 0 {
                    assert(trim_key(runs[0].0) == trim_key(rest[0].0));
                    assert(runs[1] == rest[1]);
                    assert(trim_key(rest[0].0) != trim_key(rest[1].0));
                } else {
                    assert(runs[k] == rest[k]);
                    assert(runs[k + 1] == rest[k + 1]);
                    assert(trim_key(rest[k].0) != trim_key(rest[k + 1].0));
                }
            }
        } else {
            assert(runs == seq![(lines[0], 1nat)] + rest);
            assert(runs.drop_first() =~= rest);
            assert(counts_total(runs) == 1 + counts_total(rest));
            assert forall|k: int| 1 <= k < runs.len() implies runs[k] == rest[k - 1] by {
                assert(runs[k] == rest[k - 1]);
            }
            assert(repeated(k0, 0nat) =~= Seq::<Seq<char>>::empty());
            assert(repeated(k0, 1nat) =~= seq![k0]);
            assert(rle_expand(runs) == repeated(k0, 1nat) + rle_expand(runs.drop_first()));
            assert(rle_expand(runs) =~= seq![k0] + rle_expand(rest));
            assert(rle_expand(runs) =~= trim_keys(lines));
            assert forall|k: int|
                0 <= k < runs.len() - 1 implies trim_key(#[trigger] runs[k].0) != trim_key(
                runs[k + 1].0,
            ) by {
                if k == 0 {
                    lemma_runs_first(tail);
                    assert(runs[1] == rest[0]);
                    assert(rest[0].0 == tail[0]);
                    assert(tail[0] == lines[1]);
                } else {
                    let j = k - 1;
                    assert(runs[j + 1] == rest[j]);
                    assert(runs[j + 2] == rest[j + 1]);
                    assert(trim_key(rest[j].0) != trim_key(rest[j + 1].0));
                }
            }
        }
    }
}

/// Over lines whose neighbours already differ in trimmed form, every run is
/// a single line.
proof fn lemma_runs_all_distinct(s: Seq<Seq<char>>)
    requires
        forall|k: int|
            0 <= k < s.len() - 1 ==> trim_key(#[trigger] s[k]) != trim_key(s[k + 1]),
    ensures
        runs_of(s).len() == s.len(),
        forall|k: int| 0 <= k < s.len() ==> #[trigger] runs_of(s)[k] == (s[k], 1nat),
    decreases s.len(),
{
    if s.len() > 0 {
        let t = s.drop_first();
        assert forall|k: int|
            0 <= k < t.len() - 1 implies trim_key(#[trigger] t[k]) != trim_key(t[k + 1]) by {
            assert(t[k] == s[k + 1]);
            assert(t[k + 1] == s[k + 2]);
            assert(trim_key(s[k + 1]) != trim_key(s[k + 2]));
        }
        lemma_runs_all_distinct(t);
        if s.len() >= 2 {
            assert(trim_key(s[0]) != trim_key(s[1]));
        }
        assert(runs_of(s) == seq![(s[0], 1nat)] + runs_of(t));
        assert forall|k: int| 0 <= k < s.len() implies #[trigger] runs_of(s)[k] == (
            s[k],
            1nat,
        ) by {
            if k > 0 {
                assert(runs_of(s)[k] == runs_of(t)[k - 1]);
                assert(runs_of(t)[k - 1] == (t[k - 1], 1nat));
                assert(t[k - 1] == s[k]);
            }
        }
    }
}

/// Feeding the deduplicator's plain output back through it changes nothing:
/// neighbouring output lines already differ in trimmed form, so every run
/// the second pass sees is a single line.
pub proof fn lemma_dedup_idempotent(lines: Seq<Seq<char>>)
    ensures
        dedup_rows(dedup_rows(lines, false), false) == dedup_rows(lines, false),
{
    let runs = runs_of(lines);
    let reps = dedup_rows(lines, false);
    lemma_dedup_partition(lines);
    assert(reps.len() == runs.len());
    assert forall|k: int| 0 <= k < reps.len() implies #[trigger] reps[k] == runs[k].0 by {
        assert(reps[k] == run_row(false, runs[k]));
    }
    assert forall|k: int|
        0 <= k < reps.len() - 1 implies trim_key(#[trigger] reps[k]) != trim_key(reps[k + 1]) by {
        assert(reps[k] == runs[k].0);
        assert(reps[k + 1] == runs[k + 1].0);
    }
    lemma_runs_all_distinct(reps);
    assert(dedup_rows(reps, false) =~= reps);
}

} // verus!
