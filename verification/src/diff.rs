//! Text difference: tokenization at a selectable granularity, a
//! longest-common-subsequence edit script over the tokens, and the combined
//! annotated output the difference tool highlights.
//!
//! The output is the edit script's text in emission order, one interleaved
//! stream, with a list of contiguous ranges classifying every character as
//! equal, deleted (from the original) or inserted (from the modified text).
//! Ties in the alignment are broken deterministically: a matching token is
//! taken whenever it lies on a longest common subsequence, and a deletion is
//! preferred to an insertion. The whole output is pinned: it equals the
//! rendering (`spec_render`) of the edit script (`spec_ops`) of the token
//! lists, so equal inputs always yield equal results.

use vstd::prelude::*;

use crate::strutil::{chars_to_string, str_to_chars};

verus! {

/// The unit of comparison of the difference tool.
#[derive(Clone, Copy, Debug, PartialEq, Eq, Structural)]
pub enum Granularity {
    Character,
    Word,
    Line,
}

/// The action that selects a granularity.
#[derive(Clone, Copy, Debug, PartialEq, Eq, Structural)]
pub struct SetGranularity(pub Granularity);

/// How a run of the combined output is classified.
#[derive(Clone, Copy, Debug, PartialEq, Eq, Structural)]
pub enum ChangeKind {
    Equal,
    Delete,
    Insert,
}

/// Whether the character counts as whitespace for word tokenization.
pub open spec fn is_ws(c: char) -> bool {
    c == ' ' || c == '\t' || c == '\n' || c == '\r'
}

/// Whether the character counts as whitespace, executable.
fn is_ws_exec(c: char) -> (r: bool)
    ensures
        r == is_ws(c),
{
    c == ' ' || c == '\t' || c == '\n' || c == '\r'
}

/// Length of the leading run of characters sharing the first character's
/// whitespace class.
pub open spec fn run_end(s: Seq<char>) -> int
    decreases s.len(),
{
    if s.len() == 0 {
        0
    } else if s.len() >= 2 && is_ws(s[1]) == is_ws(s[0]) {
        1 + run_end(s.drop_first())
    } else {
        1
    }
}

/// Length of the leading line including its newline, or of the whole text
/// when no newline remains.
pub open spec fn line_end(s: Seq<char>) -> int
    decreases s.len(),
{
    if s.len() == 0 {
        0
    } else if s[0] == '\n' {
        1
    } else {
        1 + line_end(s.drop_first())
    }
}

proof fn lemma_run_end_bounds(s: Seq<char>)
    requires
        s.len() > 0,
    ensures
        1 <= run_end(s) <= s.len(),
    decreases s.len(),
{
    if s.len() >= 2 && is_ws(s[1]) == is_ws(s[0]) {
        lemma_run_end_bounds(s.drop_first());
    }
}

proof fn lemma_line_end_bounds(s: Seq<char>)
    requires
        s.len() > 0,
    ensures
        1 <= line_end(s) <= s.len(),
    decreases s.len(),
{
    if s[0] != '\n' {
        if s.len() >= 2 {
            lemma_line_end_bounds(s.drop_first());
        } else {
            assert(s.drop_first().len() == 0);
            assert(line_end(s.drop_first()) == 0);
        }
    }
}

/// The leading run is exactly the maximal prefix of one whitespace class.
proof fn lemma_run_end_class(s: Seq<char>)
    requires
        s.len() > 0,
    ensures
        forall|i: int| 0 <= i < run_end(s) ==> is_ws(#[trigger] s[i]) == is_ws(s[0]),
        run_end(s) == s.len() || is_ws(s[run_end(s)]) != is_ws(s[0]),
    decreases s.len(),
{
    lemma_run_end_bounds(s);
    if s.len() >= 2 && is_ws(s[1]) == is_ws(s[0]) {
        lemma_run_end_bounds(s.drop_first());
        lemma_run_end_class(s.drop_first());
        assert forall|i: int| 0 <= i < run_end(s) implies is_ws(#[trigger] s[i]) == is_ws(s[0]) by {
            if i >= 1 {
                assert(s.drop_first()[i - 1] == s[i]);
            }
        }
        if run_end(s) < s.len() {
            assert(s.drop_first()[run_end(s) - 1] == s[run_end(s)]);
        }
    }
}

/// Any index with the run's properties equals `run_end`.
proof fn lemma_run_end_unique(s: Seq<char>, k: int)
    requires
        s.len() > 0,
        1 <= k <= s.len(),
        forall|i: int| 0 <= i < k ==> is_ws(#[trigger] s[i]) == is_ws(s[0]),
        k == s.len() || is_ws(s[k]) != is_ws(s[0]),
    ensures
        k == run_end(s),
{
    lemma_run_end_bounds(s);
    lemma_run_end_class(s);
    if k < run_end(s) {
        assert(is_ws(s[k]) == is_ws(s[0]));
    } else if run_end(s) < k {
        assert(is_ws(s[run_end(s)]) == is_ws(s[0]));
    }
}

/// The leading line runs to just past the first newline, or to the end.
proof fn lemma_line_end_class(s: Seq<char>)
    requires
        s.len() > 0,
    ensures
        forall|i: int| 0 <= i < line_end(s) - 1 ==> #[trigger] s[i] != '\n',
        line_end(s) == s.len() || s[line_end(s) - 1] == '\n',
    decreases s.len(),
{
    lemma_line_end_bounds(s);
    if s[0] != '\n' && s.len() >= 2 {
        lemma_line_end_bounds(s.drop_first());
        lemma_line_end_class(s.drop_first());
        assert forall|i: int| 0 <= i < line_end(s) - 1 implies #[trigger] s[i] != '\n' by {
            if i >= 1 {
                assert(s.drop_first()[i - 1] == s[i]);
            }
        }
        if line_end(s) < s.len() {
            assert(s.drop_first()[line_end(s) - 2] == s[line_end(s) - 1]);
        }
    }
}

/// Any index with the line's properties equals `line_end`.
proof fn lemma_line_end_unique(s: Seq<char>, k: int)
    requires
        s.len() > 0,
        1 <= k <= s.len(),
        forall|i: int| 0 <= i < k - 1 ==> #[trigger] s[i] != '\n',
        k == s.len() || s[k - 1] == '\n',
    ensures
        k == line_end(s),
{
    lemma_line_end_bounds(s);
    lemma_line_end_class(s);
    if k < line_end(s) {
        assert(s[k - 1] != '\n');
    } else if line_end(s) < k {
        assert(s[line_end(s) - 1] != '\n');
    }
}

/// The length of the leading token of a nonempty text.
pub open spec fn token_end(g: Granularity, s: Seq<char>) -> int {
    match g {
        Granularity::Character => 1,
        Granularity::Word => run_end(s),
        Granularity::Line => line_end(s),
    }
}

proof fn lemma_token_end_bounds(g: Granularity, s: Seq<char>)
    requires
        s.len() > 0,
    ensures
        1 <= token_end(g, s) <= s.len(),
{
    match g {
        Granularity::Character => {},
        Granularity::Word => lemma_run_end_bounds(s),
        Granularity::Line => lemma_line_end_bounds(s),
    }
}

/// The token list of a text at a granularity. Tokens are nonempty and
/// concatenate back to the text.
#[verifier::opaque]
pub open spec fn spec_tokenize(g: Granularity, s: Seq<char>) -> Seq<Seq<char>>
    decreases s.len(),
    via spec_tokenize_decreases
{
    if s.len() == 0 {
        Seq::empty()
    } else {
        seq![s.take(token_end(g, s))] + spec_tokenize(g, s.skip(token_end(g, s)))
    }
}

#[via_fn]
proof fn spec_tokenize_decreases(g: Granularity, s: Seq<char>) {
    if s.len() > 0 {
        lemma_token_end_bounds(g, s);
    }
}

/// The concatenation of a token list.
#[verifier::opaque]
pub open spec fn concat_tokens(ts: Seq<Seq<char>>) -> Seq<char>
    decreases ts.len(),
{
    if ts.len() == 0 {
        Seq::empty()
    } else {
        ts[0] + concat_tokens(ts.drop_first())
    }
}

/// Tokens concatenate back to the text they came from.
pub proof fn lemma_tokenize_concat(g: Granularity, s: Seq<char>)
    ensures
        concat_tokens(spec_tokenize(g, s)) == s,
    decreases s.len(),
{
    reveal(spec_tokenize);
    reveal(concat_tokens);
    if s.len() > 0 {
        let k = token_end(g, s);
        lemma_token_end_bounds(g, s);
        lemma_tokenize_concat(g, s.skip(k));
        let ts = spec_tokenize(g, s);
        assert(ts.drop_first() =~= spec_tokenize(g, s.skip(k)));
        assert(s.take(k) + s.skip(k) =~= s);
    }
}

/// Every token is nonempty.
pub proof fn lemma_tokenize_nonempty(g: Granularity, s: Seq<char>)
    ensures
        forall|i: int| 0 <= i < spec_tokenize(g, s).len() ==> spec_tokenize(g, s)[i].len() > 0,
    decreases s.len(),
{
    reveal(spec_tokenize);
    if s.len() > 0 {
        let k = token_end(g, s);
        lemma_token_end_bounds(g, s);
        lemma_tokenize_nonempty(g, s.skip(k));
        let ts = spec_tokenize(g, s);
        assert forall|i: int| 0 <= i < ts.len() implies ts[i].len() > 0 by {
            if i >= 1 {
                assert(ts[i] == spec_tokenize(g, s.skip(k))[i - 1]);
            }
        }
    }
}

/// The token list of the text at the granularity.
pub fn tokenize(g: Granularity, s: &Vec<char>) -> (r: Vec<Vec<char>>)
    ensures
        r.deep_view() == spec_tokenize(g, s@),
{
    let n = s.len();
    let mut toks: Vec<Vec<char>> = Vec::new();
    let mut pos: usize = 0;
    proof {
        assert(toks.deep_view() =~~= Seq::<Seq<char>>::empty());
        assert(s@.skip(0) =~= s@);
    }
    while pos < n
        invariant
            pos <= n == s@.len(),
            spec_tokenize(g, s@) =~~= toks.deep_view() + spec_tokenize(g, s@.skip(pos as int)),
        decreases n - pos,
    {
        let ghost rest = s@.skip(pos as int);
        let end: usize = match g {
            Granularity::Character => pos + 1,
            Granularity::Word => {
                let first_ws = is_ws_exec(s[pos]);
                let mut e: usize = pos + 1;
                while e < n && is_ws_exec(s[e]) == first_ws
                    invariant
                        pos < e <= n == s@.len(),
                        first_ws == is_ws(s@[pos as int]),
                        forall|i: int| pos <= i < e ==> is_ws(#[trigger] s@[i]) == is_ws(s@[pos as int]),
                    decreases n - e,
                {
                    e = e + 1;
                }
                proof {
                    assert forall|i: int| 0 <= i < e - pos implies is_ws(#[trigger] rest[i]) == is_ws(
                        rest[0],
                    ) by {
                        assert(rest[i] == s@[pos + i]);
                    }
                    if e < n {
                        assert(rest[e - pos] == s@[e as int]);
                    }
                    lemma_run_end_unique(rest, e - pos);
                }
                e
            },
            Granularity::Line => {
                let mut e: usize = pos;
                while e < n && s[e] != '\n'
                    invariant
                        pos <= e <= n == s@.len(),
                        forall|i: int| pos <= i < e ==> #[trigger] s@[i] != '\n',
                    decreases n - e,
                {
                    e = e + 1;
                }
                let e2 = if e < n {
                    e + 1
                } else {
                    e
                };
                proof {
                    assert forall|i: int| 0 <= i < e2 - pos - 1 implies #[trigger] rest[i] != '\n' by {
                        assert(rest[i] == s@[pos + i]);
                    }
                    if e2 < n {
                        assert(rest[e2 - pos - 1] == s@[e2 - 1]);
                    } else if e < n {
                        assert(rest[e2 - pos - 1] == s@[e2 - 1]);
                    }
                    lemma_line_end_unique(rest, e2 - pos);
                }
                e2
            },
        };
        proof {
            lemma_token_end_bounds(g, rest);
            assert(end - pos == token_end(g, rest));
        }
        let mut tok: Vec<char> = Vec::new();
        let mut q: usize = pos;
        while q < end
            invariant
                pos <= q <= end <= s@.len(),
                tok@ == s@.subrange(pos as int, q as int),
            decreases end - q,
        {
            tok.push(s[q]);
            proof {
                assert(s@.subrange(pos as int, q + 1) =~= s@.subrange(pos as int, q as int).push(
                    s@[q as int],
                ));
            }
            q = q + 1;
        }
        let ghost old_toks = toks.deep_view();
        toks.push(tok);
        proof {
            assert(toks.deep_view() =~~= old_toks + seq![s@.subrange(pos as int, end as int)]);
            assert(rest.take((end - pos) as int) =~= s@.subrange(pos as int, end as int));
            assert(rest.skip((end - pos) as int) =~= s@.skip(end as int));
            reveal(spec_tokenize);
            assert(spec_tokenize(g, rest) == seq![rest.take(token_end(g, rest))] + spec_tokenize(
                g,
                rest.skip(token_end(g, rest)),
            ));
            assert(toks.deep_view() + spec_tokenize(g, s@.skip(end as int)) =~~= old_toks
                + spec_tokenize(g, rest));
        }
        pos = end;
    }
    proof {
        reveal(spec_tokenize);
        assert(s@.skip(n as int) =~= Seq::<char>::empty());
        assert(toks.deep_view() + spec_tokenize(g, s@.skip(n as int)) =~~= toks.deep_view());
    }
    toks
}

/// Length of a longest common subsequence of two token lists.
#[verifier::opaque]
pub open spec fn spec_lcs(a: Seq<Seq<char>>, b: Seq<Seq<char>>) -> nat
    decreases a.len() + b.len(),
{
    if a.len() == 0 || b.len() == 0 {
        0
    } else if a[0] == b[0] {
        1 + spec_lcs(a.drop_first(), b.drop_first())
    } else {
        let x = spec_lcs(a.drop_first(), b);
        let y = spec_lcs(a, b.drop_first());
        if x >= y {
            x
        } else {
            y
        }
    }
}

/// A common subsequence is no longer than either list.
proof fn lemma_spec_lcs_bound(a: Seq<Seq<char>>, b: Seq<Seq<char>>)
    ensures
        spec_lcs(a, b) <= a.len() && spec_lcs(a, b) <= b.len(),
    decreases a.len() + b.len(),
{
    reveal(spec_lcs);
    if a.len() == 0 || b.len() == 0 {
    } else if a[0] == b[0] {
        lemma_spec_lcs_bound(a.drop_first(), b.drop_first());
    } else {
        lemma_spec_lcs_bound(a.drop_first(), b);
        lemma_spec_lcs_bound(a, b.drop_first());
    }
}

/// A list's longest common subsequence with itself is the whole list.
proof fn lemma_spec_lcs_self(a: Seq<Seq<char>>)
    ensures
        spec_lcs(a, a) == a.len(),
    decreases a.len(),
{
    reveal(spec_lcs);
    if a.len() > 0 {
        lemma_spec_lcs_self(a.drop_first());
    }
}

/// Whether no token of the first list equals any token of the second.
pub open spec fn tokens_disjoint(a: Seq<Seq<char>>, b: Seq<Seq<char>>) -> bool {
    forall|p: int, q: int|
        0 <= p < a.len() && 0 <= q < b.len() ==> #[trigger] a[p] != #[trigger] b[q]
}

/// Disjoint lists have no common subsequence.
proof fn lemma_lcs_zero_of_disjoint(a: Seq<Seq<char>>, b: Seq<Seq<char>>)
    requires
        tokens_disjoint(a, b),
    ensures
        spec_lcs(a, b) == 0,
    decreases a.len() + b.len(),
{
    reveal(spec_lcs);
    if a.len() > 0 && b.len() > 0 {
        assert(a[0] != b[0]);
        assert forall|p: int, q: int|
            0 <= p < a.drop_first().len() && 0 <= q < b.len() implies #[trigger] a.drop_first()[p]
            != #[trigger] b[q] by {
            assert(a.drop_first()[p] == a[p + 1]);
        }
        assert forall|p: int, q: int|
            0 <= p < a.len() && 0 <= q < b.drop_first().len() implies #[trigger] a[p]
            != #[trigger] b.drop_first()[q] by {
            assert(b.drop_first()[q] == b[q + 1]);
        }
        lemma_lcs_zero_of_disjoint(a.drop_first(), b);
        lemma_lcs_zero_of_disjoint(a, b.drop_first());
    }
}

/// Suffixes of disjoint lists are disjoint, so their common subsequence is
/// empty too.
proof fn lemma_lcs_zero_of_disjoint_skip(a: Seq<Seq<char>>, b: Seq<Seq<char>>, i: int, j: int)
    requires
        tokens_disjoint(a, b),
        0 <= i <= a.len(),
        0 <= j <= b.len(),
    ensures
        spec_lcs(a.skip(i), b.skip(j)) == 0,
{
    assert forall|p: int, q: int|
        0 <= p < a.skip(i).len() && 0 <= q < b.skip(j).len() implies #[trigger] a.skip(i)[p]
        != #[trigger] b.skip(j)[q] by {
        assert(a.skip(i)[p] == a[p + i]);
        assert(b.skip(j)[q] == b[q + j]);
    }
    lemma_lcs_zero_of_disjoint(a.skip(i), b.skip(j));
}

/// Whether two tokens hold the same characters.
fn tokens_eq(x: &Vec<char>, y: &Vec<char>) -> (r: bool)
    ensures
        r == (x@ == y@),
{
    crate::strutil::chars_eq(x, y)
}

/// The table facts: entry `(k, q)` is the suffix LCS length.
#[verifier::opaque]
pub open spec fn dp_matches(dp: Seq<Vec<usize>>, av: Seq<Seq<char>>, bv: Seq<Seq<char>>) -> bool {
    &&& dp.len() == av.len() + 1
    &&& forall|k: int| 0 <= k <= av.len() ==> (#[trigger] dp[k])@.len() == bv.len() + 1
    &&& forall|k: int, q: int|
        0 <= k <= av.len() && 0 <= q <= bv.len() ==> (#[trigger] dp[k]@[q]) == spec_lcs(
            av.skip(k),
            bv.skip(q),
        )
}

/// The table of suffix LCS lengths: entry `(i, j)` is the LCS length of
/// `a[i..]` and `b[j..]`.
fn lcs_table(a: &Vec<Vec<char>>, b: &Vec<Vec<char>>) -> (dp: Vec<Vec<usize>>)
    requires
        a@.len() < usize::MAX,
        b@.len() < usize::MAX,
    ensures
        dp_matches(dp@, a.deep_view(), b.deep_view()),
{
    let n = a.len();
    let m = b.len();
    let ghost av = a.deep_view();
    let ghost bv = b.deep_view();
    let mut rows: Vec<Vec<usize>> = Vec::new();
    let bottom: Vec<usize> = vec![0usize; m + 1];
    rows.push(bottom);
    proof {
        assert forall|q: int| 0 <= q <= m implies spec_lcs(av.skip(n as int), bv.skip(q))
            == 0 by {
            reveal(spec_lcs);
            assert(av.skip(n as int).len() == 0);
        }
    }
    let mut i: usize = n;
    while i > 0
        invariant
            i <= n == av.len() == a@.len(),
            m == bv.len() == b@.len(),
            av == a.deep_view(),
            bv == b.deep_view(),
            rows@.len() == n + 1 - i,
            forall|k: int| 0 <= k < rows@.len() ==> (#[trigger] rows@[k])@.len() == m + 1,
            forall|k: int, q: int|
                0 <= k < rows@.len() && 0 <= q <= m ==> (#[trigger] rows@[k]@[q]) == spec_lcs(
                    av.skip(i + k),
                    bv.skip(q),
                ),
        decreases i,
    {
        i = i - 1;
        let mut row: Vec<usize> = Vec::new();
        row.push(0);
        proof {
            assert(spec_lcs(av.skip(i as int), bv.skip(m as int)) == 0) by {
                reveal(spec_lcs);
                assert(bv.skip(m as int).len() == 0);
            }
        }
        let mut j: usize = m;
        while j > 0
            invariant
                j <= m == bv.len() == b@.len(),
                i < n == av.len() == a@.len(),
                av == a.deep_view(),
                bv == b.deep_view(),
                rows@.len() == n - i,
                forall|k: int| 0 <= k < rows@.len() ==> (#[trigger] rows@[k])@.len() == m + 1,
                forall|k: int, q: int|
                    0 <= k < rows@.len() && 0 <= q <= m ==> (#[trigger] rows@[k]@[q]) == spec_lcs(
                        av.skip(i + 1 + k),
                        bv.skip(q),
                    ),
                row@.len() == m + 1 - j,
                forall|q: int|
                    0 <= q < row@.len() ==> (#[trigger] row@[q]) == spec_lcs(
                        av.skip(i as int),
                        bv.skip(j + q),
                    ),
            decreases j,
        {
            j = j - 1;
            let ghost sa = av.skip(i as int);
            let ghost sb = bv.skip(j as int);
            proof {
                reveal(spec_lcs);
                lemma_spec_lcs_bound(sa, sb);
                assert(sa.drop_first() =~~= av.skip(i + 1));
                assert(sb.drop_first() =~~= bv.skip(j + 1));
                assert(sa[0] == av[i as int] && av[i as int] == a@[i as int]@);
                assert(sb[0] == bv[j as int] && bv[j as int] == b@[j as int]@);
            }
            let val: usize;
            if tokens_eq(&a[i], &b[j]) {
                let below = &rows[0];
                val = below[j + 1] + 1;
                proof {
                    lemma_spec_lcs_bound(sa.drop_first(), sb.drop_first());
                }
            } else {
                let x = rows[0][j];
                let y = row[0];
                val = if x >= y {
                    x
                } else {
                    y
                };
            }
            let ghost prev_row = row@;
            row.insert(0, val);
            proof {
                assert forall|q: int| 0 <= q < row@.len() implies (#[trigger] row@[q]) == spec_lcs(
                    av.skip(i as int),
                    bv.skip(j + q),
                ) by {
                    if q > 0 {
                        assert(row@[q] == prev_row[q - 1]);
                    }
                }
            }
        }
        let ghost prev_rows = rows@;
        rows.insert(0, row);
        proof {
            assert forall|k: int, q: int|
                0 <= k < rows@.len() && 0 <= q <= m implies (#[trigger] rows@[k]@[q]) == spec_lcs(
                    av.skip(i + k),
                    bv.skip(q),
                ) by {
                if k > 0 {
                    assert(rows@[k] == prev_rows[k - 1]);
                }
            }
        }
    }
    proof {
        reveal(dp_matches);
    }
    rows
}

/// Which edit operation the alignment takes at the front of two token
/// lists: a matching token lying on a longest common subsequence is taken,
/// else a deletion whenever it keeps the alignment at least as long as an
/// insertion would, else an insertion.
pub open spec fn spec_choice(a: Seq<Seq<char>>, b: Seq<Seq<char>>) -> int {
    if a.len() > 0 && b.len() > 0 && a[0] == b[0] && spec_lcs(a, b) == spec_lcs(
        a.drop_first(),
        b.drop_first(),
    ) + 1 {
        0
    } else if a.len() > 0 && (b.len() == 0 || spec_lcs(a.drop_first(), b) >= spec_lcs(
        a,
        b.drop_first(),
    )) {
        1
    } else {
        2
    }
}

/// The edit script over two token lists: one operation per token, in the
/// deterministic order `spec_choice` fixes.
#[verifier::opaque]
pub open spec fn spec_ops(a: Seq<Seq<char>>, b: Seq<Seq<char>>) -> Seq<(ChangeKind, Seq<char>)>
    decreases a.len() + b.len(),
{
    if a.len() == 0 && b.len() == 0 {
        Seq::empty()
    } else if spec_choice(a, b) == 0 {
        seq![(ChangeKind::Equal, a[0])] + spec_ops(a.drop_first(), b.drop_first())
    } else if spec_choice(a, b) == 1 {
        seq![(ChangeKind::Delete, a[0])] + spec_ops(a.drop_first(), b)
    } else {
        seq![(ChangeKind::Insert, b[0])] + spec_ops(a, b.drop_first())
    }
}

/// A classified range of the combined output: characters `start..end`.
#[derive(Clone, Copy, Debug, PartialEq, Eq, Structural)]
pub struct DiffSegment {
    pub start: usize,
    pub end: usize,
    pub kind: ChangeKind,
}

/// The ranges are nonempty, contiguous from the start, and cover a text of
/// the given length: no gaps and no overlaps.
#[verifier::opaque]
pub open spec fn segments_partition(segs: Seq<DiffSegment>, len: int) -> bool {
    &&& forall|k: int| 0 <= k < segs.len() ==> (#[trigger] segs[k]).start < segs[k].end
    &&& forall|k: int|
        0 <= k < segs.len() ==> (#[trigger] segs[k]).start == if k == 0 {
            0int
        } else {
            segs[k - 1].end as int
        }
    &&& if segs.len() == 0 {
        len == 0
    } else {
        segs[segs.len() - 1].end == len
    }
}

/// Neighbouring ranges carry different classifications.
#[verifier::opaque]
pub open spec fn segments_coalesced(segs: Seq<DiffSegment>) -> bool {
    forall|k: int| 0 < k < segs.len() ==> (#[trigger] segs[k]).kind != segs[k - 1].kind
}

/// Whether a range of this kind draws its text from the original.
pub open spec fn from_original(k: ChangeKind) -> bool {
    k != ChangeKind::Insert
}

/// Whether a range of this kind draws its text from the modified text.
pub open spec fn from_modified(k: ChangeKind) -> bool {
    k != ChangeKind::Delete
}

/// The characters of the ranges drawn from one side, in order.
#[verifier::opaque]
pub open spec fn selected_text(segs: Seq<DiffSegment>, out: Seq<char>, original: bool) -> Seq<char>
    decreases segs.len(),
{
    if segs.len() == 0 {
        Seq::empty()
    } else {
        let s = segs.last();
        let rest = selected_text(segs.drop_last(), out, original);
        if (if original {
            from_original(s.kind)
        } else {
            from_modified(s.kind)
        }) {
            rest + out.subrange(s.start as int, s.end as int)
        } else {
            rest
        }
    }
}

/// One step of rendering: the token's text goes to the end of the output,
/// and the last range grows when its classification repeats, else a new
/// range starts.
pub open spec fn spec_render_step(
    text: Seq<char>,
    segs: Seq<DiffSegment>,
    tok: Seq<char>,
    kind: ChangeKind,
) -> (Seq<char>, Seq<DiffSegment>) {
    let ntext = text + tok;
    if segs.len() > 0 && segs.last().kind == kind {
        (
            ntext,
            segs.drop_last().push(
                DiffSegment { start: segs.last().start, end: ntext.len() as usize, kind },
            ),
        )
    } else {
        (
            ntext,
            segs.push(
                DiffSegment { start: text.len() as usize, end: ntext.len() as usize, kind },
            ),
        )
    }
}

/// The rendering of an edit script: its text in emission order with the
/// coalesced classified ranges.
#[verifier::opaque]
pub open spec fn spec_render(ops: Seq<(ChangeKind, Seq<char>)>) -> (Seq<char>, Seq<DiffSegment>)
    decreases ops.len(),
{
    if ops.len() == 0 {
        (Seq::empty(), Seq::empty())
    } else {
        let prev = spec_render(ops.drop_last());
        spec_render_step(prev.0, prev.1, ops.last().1, ops.last().0)
    }
}

/// Every range ends within the text.
#[verifier::rlimit(50)]
proof fn lemma_partition_ends(segs: Seq<DiffSegment>, len: int, k: int)
    requires
        segments_partition(segs, len),
        0 <= k < segs.len(),
    ensures
        segs[k].end <= len,
    decreases segs.len() - k,
{
    reveal(segments_partition);
    if k < segs.len() - 1 {
        lemma_partition_ends(segs, len, k + 1);
    }
}

/// Extending the text beyond every range leaves the selected text unchanged.
proof fn lemma_selected_stable(
    segs: Seq<DiffSegment>,
    out1: Seq<char>,
    out2: Seq<char>,
    original: bool,
)
    requires
        out1.len() <= out2.len(),
        out2.take(out1.len() as int) == out1,
        forall|k: int| 0 <= k < segs.len() ==> (#[trigger] segs[k]).end <= out1.len(),
        forall|k: int| 0 <= k < segs.len() ==> (#[trigger] segs[k]).start <= segs[k].end,
    ensures
        selected_text(segs, out2, original) == selected_text(segs, out1, original),
    decreases segs.len(),
{
    reveal(selected_text);
    if segs.len() > 0 {
        lemma_selected_stable(segs.drop_last(), out1, out2, original);
        let s = segs.last();
        assert(out2.subrange(s.start as int, s.end as int) =~= out1.subrange(
            s.start as int,
            s.end as int,
        ));
    }
}

/// Appending a fresh range of a new kind keeps the partition, the
/// coalescing, and grows the selected sides by the token.
#[verifier::rlimit(100)]
proof fn lemma_append_new_segment(
    pre: Seq<DiffSegment>,
    out_old: Seq<char>,
    out_new: Seq<char>,
    tok: Seq<char>,
    seg: DiffSegment,
)
    requires
        tok.len() > 0,
        out_new == out_old + tok,
        segments_partition(pre, out_old.len() as int),
        segments_coalesced(pre),
        pre.len() > 0 ==> pre.last().kind != seg.kind,
        seg.start == out_old.len(),
        seg.end == out_new.len(),
    ensures
        segments_partition(pre.push(seg), out_new.len() as int),
        segments_coalesced(pre.push(seg)),
        selected_text(pre.push(seg), out_new, true) == selected_text(pre, out_old, true) + (
        if from_original(seg.kind) {
            tok
        } else {
            Seq::<char>::empty()
        }),
        selected_text(pre.push(seg), out_new, false) == selected_text(pre, out_old, false) + (
        if from_modified(seg.kind) {
            tok
        } else {
            Seq::<char>::empty()
        }),
        seg.kind == ChangeKind::Equal && all_kinds_equal(pre) ==> all_kinds_equal(pre.push(seg)),
{
    reveal(segments_partition);
    reveal(segments_coalesced);
    reveal(selected_text);
    reveal(all_kinds_equal);
    let post = pre.push(seg);
    assert(post.drop_last() =~= pre);
    assert(out_new.take(out_old.len() as int) =~= out_old);
    assert forall|k: int| 0 <= k < pre.len() implies (#[trigger] pre[k]).end <= out_old.len() by {
        lemma_partition_ends(pre, out_old.len() as int, k);
    }
    lemma_selected_stable(pre, out_old, out_new, true);
    lemma_selected_stable(pre, out_old, out_new, false);
    assert(out_new.subrange(seg.start as int, seg.end as int) =~= tok);
    assert(selected_text(pre, out_old, true) + Seq::<char>::empty() =~= selected_text(
        pre,
        out_old,
        true,
    ));
    assert(selected_text(pre, out_old, false) + Seq::<char>::empty() =~= selected_text(
        pre,
        out_old,
        false,
    ));
}

/// Replacing the last range with its extension grows the selected sides by
/// the appended text.
#[verifier::rlimit(100)]
proof fn lemma_merge_selected(
    pre: Seq<DiffSegment>,
    out_old: Seq<char>,
    out_new: Seq<char>,
    tok: Seq<char>,
    seg_new: DiffSegment,
    original: bool,
)
    requires
        tok.len() > 0,
        out_new == out_old + tok,
        pre.len() > 0,
        forall|k: int| 0 <= k < pre.len() ==> (#[trigger] pre[k]).end <= out_old.len(),
        forall|k: int| 0 <= k < pre.len() ==> (#[trigger] pre[k]).start <= pre[k].end,
        pre.last().end == out_old.len(),
        seg_new.kind == pre.last().kind,
        seg_new.start == pre.last().start,
        seg_new.end == out_new.len(),
    ensures
        selected_text(pre.drop_last().push(seg_new), out_new, original) == selected_text(
            pre,
            out_old,
            original,
        ) + (if (if original {
            from_original(seg_new.kind)
        } else {
            from_modified(seg_new.kind)
        }) {
            tok
        } else {
            Seq::<char>::empty()
        }),
{
    reveal(selected_text);
    let post = pre.drop_last().push(seg_new);
    let seg_old = pre.last();
    assert(post.drop_last() =~= pre.drop_last());
    assert(out_new.take(out_old.len() as int) =~= out_old);
    lemma_selected_stable(pre.drop_last(), out_old, out_new, original);
    assert(out_new.subrange(seg_new.start as int, seg_new.end as int) =~= out_old.subrange(
        seg_old.start as int,
        seg_old.end as int,
    ) + tok);
    assert(selected_text(pre, out_old, original) + Seq::<char>::empty() =~= selected_text(
        pre,
        out_old,
        original,
    ));
}

/// Replacing the last range with a longer one of the same kind keeps the
/// partition and the coalescing.
#[verifier::rlimit(100)]
proof fn lemma_merge_shape(pre: Seq<DiffSegment>, old_len: int, seg_new: DiffSegment)
    requires
        segments_partition(pre, old_len),
        segments_coalesced(pre),
        pre.len() > 0,
        seg_new.kind == pre.last().kind,
        seg_new.start == pre.last().start,
        old_len < seg_new.end,
    ensures
        segments_partition(pre.drop_last().push(seg_new), seg_new.end as int),
        segments_coalesced(pre.drop_last().push(seg_new)),
        seg_new.kind == ChangeKind::Equal && all_kinds_equal(pre) ==> all_kinds_equal(
            pre.drop_last().push(seg_new),
        ),
        forall|k: int| 0 <= k < pre.len() ==> (#[trigger] pre[k]).end <= old_len,
        forall|k: int| 0 <= k < pre.len() ==> (#[trigger] pre[k]).start <= pre[k].end,
        pre.last().end == old_len,
{
    reveal(segments_partition);
    reveal(segments_coalesced);
    reveal(all_kinds_equal);
    assert forall|k: int| 0 <= k < pre.len() implies (#[trigger] pre[k]).end <= old_len by {
        lemma_partition_ends(pre, old_len, k);
    }
    let post = pre.drop_last().push(seg_new);
    assert(post.drop_last() =~= pre.drop_last());
}

/// Extending the last range by a token of the same kind keeps the partition
/// and the coalescing, and grows the selected sides by the token.
proof fn lemma_append_merge(
    pre: Seq<DiffSegment>,
    out_old: Seq<char>,
    out_new: Seq<char>,
    tok: Seq<char>,
    seg_new: DiffSegment,
)
    requires
        tok.len() > 0,
        out_new == out_old + tok,
        segments_partition(pre, out_old.len() as int),
        segments_coalesced(pre),
        pre.len() > 0,
        seg_new.kind == pre.last().kind,
        seg_new.start == pre.last().start,
        seg_new.end == out_new.len(),
    ensures
        segments_partition(pre.drop_last().push(seg_new), out_new.len() as int),
        segments_coalesced(pre.drop_last().push(seg_new)),
        selected_text(pre.drop_last().push(seg_new), out_new, true) == selected_text(
            pre,
            out_old,
            true,
        ) + (if from_original(seg_new.kind) {
            tok
        } else {
            Seq::<char>::empty()
        }),
        selected_text(pre.drop_last().push(seg_new), out_new, false) == selected_text(
            pre,
            out_old,
            false,
        ) + (if from_modified(seg_new.kind) {
            tok
        } else {
            Seq::<char>::empty()
        }),
        seg_new.kind == ChangeKind::Equal && all_kinds_equal(pre) ==> all_kinds_equal(
            pre.drop_last().push(seg_new),
        ),
{
    lemma_merge_shape(pre, out_old.len() as int, seg_new);
    lemma_merge_selected(pre, out_old, out_new, tok, seg_new, true);
    lemma_merge_selected(pre, out_old, out_new, tok, seg_new, false);
}

/// Appends every character of the second vector to the first.
fn extend_chars(out: &mut Vec<char>, tok: &Vec<char>)
    ensures
        final(out)@ == old(out)@ + tok@,
{
    let tn = tok.len();
    let mut q: usize = 0;
    while q < tn
        invariant
            q <= tn == tok@.len(),
            out@ == old(out)@ + tok@.take(q as int),
        decreases tn - q,
    {
        out.push(tok[q]);
        proof {
            assert(old(out)@ + tok@.take(q + 1) =~= (old(out)@ + tok@.take(q as int)).push(
                tok@[q as int],
            ));
        }
        q = q + 1;
    }
    proof {
        assert(tok@.take(tn as int) =~= tok@);
    }
}

/// Whether every range is classified Equal.
#[verifier::opaque]
pub open spec fn all_kinds_equal(segs: Seq<DiffSegment>) -> bool {
    forall|k: int| 0 <= k < segs.len() ==> (#[trigger] segs[k]).kind == ChangeKind::Equal
}

/// Appends one token's text to the output under the given classification,
/// growing the last range when the classification repeats.
#[verifier::rlimit(100)]
fn append_run(out: &mut Vec<char>, segs: &mut Vec<DiffSegment>, tok: &Vec<char>, kind: ChangeKind)
    requires
        tok@.len() > 0,
        segments_partition(old(segs)@, old(out)@.len() as int),
        segments_coalesced(old(segs)@),
    ensures
        final(out)@ == old(out)@ + tok@,
        segments_partition(final(segs)@, final(out)@.len() as int),
        segments_coalesced(final(segs)@),
        selected_text(final(segs)@, final(out)@, true) == selected_text(
            old(segs)@,
            old(out)@,
            true,
        ) + (if from_original(kind) {
            tok@
        } else {
            Seq::<char>::empty()
        }),
        selected_text(final(segs)@, final(out)@, false) == selected_text(
            old(segs)@,
            old(out)@,
            false,
        ) + (if from_modified(kind) {
            tok@
        } else {
            Seq::<char>::empty()
        }),
        kind == ChangeKind::Equal && all_kinds_equal(old(segs)@) ==> all_kinds_equal(final(segs)@),
        final(segs)@.len() == old(segs)@.len() + (if old(segs)@.len() > 0 && old(
            segs,
        )@.last().kind == kind {
            0int
        } else {
            1int
        }),
        final(segs)@.len() > 0 && final(segs)@.last().kind == kind,
        forall|k: int|
            0 <= k < final(segs)@.len() - 1 ==> #[trigger] final(segs)@[k] == old(segs)@[k],
        final(out)@ == spec_render_step(old(out)@, old(segs)@, tok@, kind).0,
        final(segs)@ == spec_render_step(old(out)@, old(segs)@, tok@, kind).1,
{
    let start = out.len();
    extend_chars(out, tok);
    let end = out.len();
    let merge: bool = if segs.len() > 0 {
        let lastk = segs[segs.len() - 1].kind;
        lastk == kind
    } else {
        false
    };
    if merge {
        let ghost pre = segs@;
        let last = match segs.pop() {
            Some(s) => s,
            None => DiffSegment { start: 0, end: 0, kind },
        };
        let ext = DiffSegment { start: last.start, end, kind: last.kind };
        segs.push(ext);
        proof {
            assert(segs@ =~= pre.drop_last().push(ext));
            lemma_append_merge(pre, old(out)@, out@, tok@, ext);
            assert(end == (old(out)@ + tok@).len() as usize);
            assert(ext == DiffSegment {
                start: pre.last().start,
                end: (old(out)@ + tok@).len() as usize,
                kind,
            });
            assert(segs@ =~= spec_render_step(old(out)@, pre, tok@, kind).1);
        }
    } else {
        let ghost pre = segs@;
        let seg = DiffSegment { start, end, kind };
        segs.push(seg);
        proof {
            lemma_append_new_segment(pre, old(out)@, out@, tok@, seg);
            assert(start == old(out)@.len() as usize);
            assert(end == (old(out)@ + tok@).len() as usize);
            assert(segs@ =~= spec_render_step(old(out)@, pre, tok@, kind).1);
        }
    }
}


/// Concatenation after appending one token appends that token's text.
proof fn lemma_concat_push(ts: Seq<Seq<char>>, t: Seq<char>)
    ensures
        concat_tokens(ts.push(t)) == concat_tokens(ts) + t,
    decreases ts.len(),
{
    reveal(concat_tokens);
    if ts.len() == 0 {
        assert(ts.push(t)[0] == t);
        assert(ts.push(t).drop_first() =~~= Seq::<Seq<char>>::empty());
        assert(concat_tokens(Seq::<Seq<char>>::empty()) == Seq::<char>::empty());
        assert(concat_tokens(ts) == Seq::<char>::empty());
        assert(concat_tokens(ts.push(t)) == t + Seq::<char>::empty());
        assert(t + Seq::<char>::empty() =~= Seq::<char>::empty() + t);
    } else {
        lemma_concat_push(ts.drop_first(), t);
        assert(ts.push(t).drop_first() =~~= ts.drop_first().push(t));
        assert(ts.push(t)[0] == ts[0]);
        assert(ts[0] + (concat_tokens(ts.drop_first()) + t) =~= (ts[0] + concat_tokens(
            ts.drop_first(),
        )) + t);
    }
}

/// One more token in the prefix appends that token's text.
proof fn lemma_concat_take_push(ts: Seq<Seq<char>>, i: int)
    requires
        0 <= i < ts.len(),
    ensures
        concat_tokens(ts.take(i + 1)) == concat_tokens(ts.take(i)) + ts[i],
{
    assert(ts.take(i + 1) =~~= ts.take(i).push(ts[i]));
    lemma_concat_push(ts.take(i), ts[i]);
}

/// Nonempty tokens never outnumber the characters they carry.
proof fn lemma_concat_count(ts: Seq<Seq<char>>)
    requires
        forall|k: int| 0 <= k < ts.len() ==> (#[trigger] ts[k]).len() > 0,
    ensures
        concat_tokens(ts).len() >= ts.len(),
    decreases ts.len(),
{
    reveal(concat_tokens);
    if ts.len() > 0 {
        assert forall|k: int| 0 <= k < ts.drop_first().len() implies (#[trigger] ts.drop_first()[
            k
        ]).len() > 0 by {
            assert(ts.drop_first()[k] == ts[k + 1]);
        }
        lemma_concat_count(ts.drop_first());
    }
}

/// The empty range list covers the empty output.
proof fn lemma_segments_empty(out: Seq<char>)
    ensures
        segments_partition(Seq::<DiffSegment>::empty(), 0),
        segments_coalesced(Seq::<DiffSegment>::empty()),
        all_kinds_equal(Seq::<DiffSegment>::empty()),
        selected_text(Seq::<DiffSegment>::empty(), out, true) == Seq::<char>::empty(),
        selected_text(Seq::<DiffSegment>::empty(), out, false) == Seq::<char>::empty(),
        concat_tokens(Seq::<Seq<char>>::empty()) == Seq::<char>::empty(),
{
    reveal(segments_partition);
    reveal(segments_coalesced);
    reveal(selected_text);
    reveal(all_kinds_equal);
    reveal(concat_tokens);
}

/// Picks the next edit operation at position `(i, j)`: a matching token on
/// a longest common subsequence when one is available, else a deletion when
/// it keeps the alignment at least as long as an insertion would.
fn choose_op(
    ta: &Vec<Vec<char>>,
    tb: &Vec<Vec<char>>,
    dp: &Vec<Vec<usize>>,
    i: usize,
    j: usize,
) -> (c: u8)
    requires
        dp_matches(dp@, ta.deep_view(), tb.deep_view()),
        i <= ta@.len(),
        j <= tb@.len(),
        i < ta@.len() || j < tb@.len(),
    ensures
        c <= 2,
        c == 0 ==> i < ta@.len() && j < tb@.len() && ta.deep_view()[i as int] == tb.deep_view()[
            j as int
        ],
        c == 1 ==> i < ta@.len(),
        c == 2 ==> j < tb@.len(),
        ta.deep_view() == tb.deep_view() && i == j ==> c == 0,
        tokens_disjoint(ta.deep_view(), tb.deep_view()) && i < ta@.len() ==> c == 1,
        c as int == spec_choice(ta.deep_view().skip(i as int), tb.deep_view().skip(j as int)),
{
    let ghost av = ta.deep_view();
    let ghost bv = tb.deep_view();
    let ghost sa = av.skip(i as int);
    let ghost sb = bv.skip(j as int);
    let n = ta.len();
    let m = tb.len();
    proof {
        reveal(dp_matches);
        assert(dp@.len() == n + 1);
        assert(forall|k: int| 0 <= k <= n ==> (#[trigger] dp@[k])@.len() == m + 1);
        assert(forall|k: int, q: int|
            0 <= k <= n && 0 <= q <= m ==> (#[trigger] dp@[k]@[q]) == spec_lcs(
                av.skip(k),
                bv.skip(q),
            ));
    }
    if i < n && j < m {
        proof {
            assert(sa.drop_first() =~~= av.skip(i + 1));
            assert(sb.drop_first() =~~= bv.skip(j + 1));
            assert(sa[0] == av[i as int] && av[i as int] == ta@[i as int]@);
            assert(sb[0] == bv[j as int] && bv[j as int] == tb@[j as int]@);
            if av == bv && i == j {
                lemma_spec_lcs_self(av.skip(i as int));
                lemma_spec_lcs_self(av.skip(i + 1));
                assert(av.skip(i as int).drop_first() =~~= av.skip(i + 1));
                reveal(spec_lcs);
                assert(av[i as int] == ta@[i as int]@);
                assert(bv[j as int] == tb@[j as int]@);
            }
        }
        if tokens_eq(&ta[i], &tb[j]) {
            let d0 = dp[i][j];
            let d1 = dp[i + 1][j + 1];
            proof {
                lemma_spec_lcs_bound(av.skip(i + 1), bv.skip(j + 1));
            }
            if d0 == d1 + 1 {
                proof {
                    assert(av[i as int] == ta@[i as int]@);
                    assert(bv[j as int] == tb@[j as int]@);
                    if tokens_disjoint(av, bv) {
                        assert(av[i as int] != bv[j as int]);
                    }
                    assert(spec_choice(sa, sb) == 0);
                }
                return 0;
            }
            proof {
                if av == bv && i == j {
                    assert(false);
                }
            }
        }
        let x = dp[i + 1][j];
        let y = dp[i][j + 1];
        proof {
            if tokens_disjoint(av, bv) {
                lemma_lcs_zero_of_disjoint_skip(av, bv, i + 1, j as int);
                lemma_lcs_zero_of_disjoint_skip(av, bv, i as int, j + 1);
            }
        }
        if x >= y {
            proof {
                assert(spec_choice(sa, sb) == 1);
            }
            1
        } else {
            proof {
                assert(spec_choice(sa, sb) == 2);
            }
            2
        }
    } else if i < n {
        proof {
            if av == bv && i == j {
                assert(false);
            }
            assert(sb.len() == 0);
            assert(spec_choice(sa, sb) == 1);
        }
        1
    } else {
        proof {
            if av == bv && i == j {
                assert(false);
            }
            assert(sa.len() == 0);
            assert(spec_choice(sa, sb) == 2);
        }
        2
    }
}

/// With every range equal, the output is the original: one spanning range,
/// or none when the text is empty.
#[verifier::rlimit(100)]
proof fn lemma_identity_shape(segs: Seq<DiffSegment>, out: Seq<char>, txt: Seq<char>)
    requires
        segments_partition(segs, out.len() as int),
        segments_coalesced(segs),
        all_kinds_equal(segs),
        selected_text(segs, out, true) == txt,
    ensures
        segs.len() == (if txt.len() == 0 {
            0int
        } else {
            1int
        }),
        txt.len() > 0 ==> segs[0].kind == ChangeKind::Equal && out == txt,
{
    reveal(segments_partition);
    reveal(segments_coalesced);
    reveal(selected_text);
    reveal(all_kinds_equal);
    if segs.len() >= 2 {
        assert(segs[1].kind != segs[0].kind);
        assert(segs[1].kind == ChangeKind::Equal);
        assert(segs[0].kind == ChangeKind::Equal);
    }
    if segs.len() == 1 {
        let s0 = segs[0];
        assert(segs.last() == s0);
        assert(segs.drop_last() =~= Seq::<DiffSegment>::empty());
        assert(selected_text(Seq::<DiffSegment>::empty(), out, true) == Seq::<char>::empty());
        assert(selected_text(segs, out, true) =~= out.subrange(s0.start as int, s0.end as int));
        assert(out.subrange(0, out.len() as int) =~= out);
        assert(out == txt);
        assert(txt.len() > 0);
    }
}

/// The combined annotated output of one comparison.
#[derive(Clone, Debug)]
pub struct DiffResult {
    /// The edit script's text in emission order.
    pub text: String,
    /// The classified character ranges covering `text`.
    pub segments: Vec<DiffSegment>,
}

/// The comparison over character vectors: an interleaved annotated stream.
/// The ranges partition the output; the ranges drawn from the original
/// (equal and deleted) concatenate to the original, and the ranges drawn
/// from the modified text (equal and inserted) concatenate to it. Comparing
/// a text with itself yields one equal range spanning everything.
pub fn diff_chars(a: &Vec<char>, b: &Vec<char>, g: Granularity) -> (r: (
    Vec<char>,
    Vec<DiffSegment>,
))
    requires
        a@.len() < usize::MAX,
        b@.len() < usize::MAX,
    ensures
        segments_partition(r.1@, r.0@.len() as int),
        segments_coalesced(r.1@),
        selected_text(r.1@, r.0@, true) == a@,
        selected_text(r.1@, r.0@, false) == b@,
        a@ == b@ ==> r.1@.len() == (if a@.len() == 0 {
            0int
        } else {
            1int
        }),
        a@ == b@ && a@.len() > 0 ==> r.1@[0].kind == ChangeKind::Equal && r.0@ == a@,
        tokens_disjoint(spec_tokenize(g, a@), spec_tokenize(g, b@)) ==> {
            &&& r.1@.len() == (if a@.len() == 0 {
                0int
            } else {
                1int
            }) + (if b@.len() == 0 {
                0int
            } else {
                1int
            })
            &&& (a@.len() > 0 ==> r.1@[0].kind == ChangeKind::Delete)
            &&& (b@.len() > 0 ==> r.1@.last().kind == ChangeKind::Insert)
        },
        r.0@ == spec_render(spec_ops(spec_tokenize(g, a@), spec_tokenize(g, b@))).0,
        r.1@ == spec_render(spec_ops(spec_tokenize(g, a@), spec_tokenize(g, b@))).1,
{
    let ta = tokenize(g, a);
    let tb = tokenize(g, b);
    let ghost av = ta.deep_view();
    let ghost bv = tb.deep_view();
    proof {
        lemma_tokenize_concat(g, a@);
        lemma_tokenize_concat(g, b@);
        lemma_tokenize_nonempty(g, a@);
        lemma_tokenize_nonempty(g, b@);
        lemma_concat_count(av);
        lemma_concat_count(bv);
    }
    let n = ta.len();
    let m = tb.len();
    let dp = lcs_table(&ta, &tb);
    let mut out: Vec<char> = Vec::new();
    let mut segs: Vec<DiffSegment> = Vec::new();
    let mut i: usize = 0;
    let mut j: usize = 0;
    let ghost mut ops_done: Seq<(ChangeKind, Seq<char>)> = Seq::empty();
    proof {
        lemma_segments_empty(out@);
        assert(av.take(0) =~~= Seq::<Seq<char>>::empty());
        assert(bv.take(0) =~~= Seq::<Seq<char>>::empty());
        assert(av.skip(0) =~~= av);
        assert(bv.skip(0) =~~= bv);
        assert(ops_done + spec_ops(av, bv) =~~= spec_ops(av, bv));
        assert(spec_render(ops_done) == (Seq::<char>::empty(), Seq::<DiffSegment>::empty()))
            by {
            reveal(spec_render);
        }
    }
    while i < n || j < m
        invariant
            i <= n == av.len() && n == ta@.len(),
            j <= m == bv.len() && m == tb@.len(),
            av == ta.deep_view(),
            bv == tb.deep_view(),
            dp_matches(dp@, av, bv),
            forall|k: int| 0 <= k < av.len() ==> (#[trigger] av[k]).len() > 0,
            forall|k: int| 0 <= k < bv.len() ==> (#[trigger] bv[k]).len() > 0,
            segments_partition(segs@, out@.len() as int),
            segments_coalesced(segs@),
            selected_text(segs@, out@, true) == concat_tokens(av.take(i as int)),
            selected_text(segs@, out@, false) == concat_tokens(bv.take(j as int)),
            spec_ops(av, bv) == ops_done + spec_ops(av.skip(i as int), bv.skip(j as int)),
            out@ == spec_render(ops_done).0,
            segs@ == spec_render(ops_done).1,
            av == bv ==> i == j && all_kinds_equal(segs@),
            tokens_disjoint(av, bv) ==> {
                &&& (j == 0 || i == n)
                &&& segs@.len() == (if i > 0 {
                    1int
                } else {
                    0int
                }) + (if j > 0 {
                    1int
                } else {
                    0int
                })
                &&& (i > 0 ==> segs@[0].kind == ChangeKind::Delete)
                &&& (j > 0 ==> segs@.last().kind == ChangeKind::Insert)
            },
        decreases n - i + m - j,
    {
        let c = choose_op(&ta, &tb, &dp, i, j);
        if c == 0 {
            proof {
                assert(av[i as int] == ta@[i as int]@);
                if tokens_disjoint(av, bv) {
                    assert(av[i as int] != bv[j as int]);
                }
            }
            let ghost old_done = ops_done;
            append_run(&mut out, &mut segs, &ta[i], ChangeKind::Equal);
            proof {
                lemma_concat_take_push(av, i as int);
                lemma_concat_take_push(bv, j as int);
                reveal(spec_ops);
                assert(av.skip(i as int).drop_first() =~~= av.skip(i + 1));
                assert(bv.skip(j as int).drop_first() =~~= bv.skip(j + 1));
                assert(av.skip(i as int)[0] == av[i as int]);
                assert(bv.skip(j as int)[0] == bv[j as int]);
                assert(spec_ops(av.skip(i as int), bv.skip(j as int)) == seq![
                    (ChangeKind::Equal, av[i as int]),
                ] + spec_ops(av.skip(i + 1), bv.skip(j + 1)));
                ops_done = ops_done.push((ChangeKind::Equal, av[i as int]));
                assert(spec_ops(av, bv) =~~= ops_done + spec_ops(av.skip(i + 1), bv.skip(j + 1)));
                reveal(spec_render);
                assert(ops_done.drop_last() =~~= old_done);
                assert(ops_done.last() == (ChangeKind::Equal, av[i as int]));
            }
            i = i + 1;
            j = j + 1;
        } else if c == 1 {
            proof {
                assert(av[i as int] == ta@[i as int]@);
            }
            let ghost pre_segs = segs@;
            let ghost old_done = ops_done;
            append_run(&mut out, &mut segs, &ta[i], ChangeKind::Delete);
            proof {
                lemma_concat_take_push(av, i as int);
                assert(concat_tokens(bv.take(j as int)) + Seq::<char>::empty() =~= concat_tokens(
                    bv.take(j as int),
                ));
                reveal(spec_ops);
                assert(av.skip(i as int).drop_first() =~~= av.skip(i + 1));
                assert(av.skip(i as int)[0] == av[i as int]);
                assert(spec_ops(av.skip(i as int), bv.skip(j as int)) == seq![
                    (ChangeKind::Delete, av[i as int]),
                ] + spec_ops(av.skip(i + 1), bv.skip(j as int)));
                ops_done = ops_done.push((ChangeKind::Delete, av[i as int]));
                assert(spec_ops(av, bv) =~~= ops_done + spec_ops(av.skip(i + 1), bv.skip(
                    j as int,
                )));
                reveal(spec_render);
                assert(ops_done.drop_last() =~~= old_done);
                assert(ops_done.last() == (ChangeKind::Delete, av[i as int]));
                if tokens_disjoint(av, bv) {
                    // Deletions come first: `j` is still zero here, and the
                    // one deletion range keeps its place at the front.
                    assert(j == 0);
                    if i > 0 {
                        assert(pre_segs.last() == pre_segs[0]);
                    }
                    assert(segs@[0] == segs@.last());
                }
            }
            i = i + 1;
        } else {
            proof {
                assert(bv[j as int] == tb@[j as int]@);
            }
            let ghost pre_segs = segs@;
            let ghost old_done = ops_done;
            append_run(&mut out, &mut segs, &tb[j], ChangeKind::Insert);
            proof {
                lemma_concat_take_push(bv, j as int);
                assert(concat_tokens(av.take(i as int)) + Seq::<char>::empty() =~= concat_tokens(
                    av.take(i as int),
                ));
                reveal(spec_ops);
                assert(bv.skip(j as int).drop_first() =~~= bv.skip(j + 1));
                assert(bv.skip(j as int)[0] == bv[j as int]);
                assert(spec_ops(av.skip(i as int), bv.skip(j as int)) == seq![
                    (ChangeKind::Insert, bv[j as int]),
                ] + spec_ops(av.skip(i as int), bv.skip(j + 1)));
                ops_done = ops_done.push((ChangeKind::Insert, bv[j as int]));
                assert(spec_ops(av, bv) =~~= ops_done + spec_ops(av.skip(i as int), bv.skip(
                    j + 1,
                )));
                reveal(spec_render);
                assert(ops_done.drop_last() =~~= old_done);
                assert(ops_done.last() == (ChangeKind::Insert, bv[j as int]));
                if tokens_disjoint(av, bv) {
                    // Insertions only start once the original is consumed,
                    // and they extend or follow the one deletion range.
                    assert(i == n);
                    if j > 0 {
                        assert(pre_segs.last().kind == ChangeKind::Insert);
                    } else if i > 0 {
                        assert(pre_segs.last() == pre_segs[0]);
                        assert(pre_segs[0].kind == ChangeKind::Delete);
                    }
                    if i > 0 {
                        assert(segs@[0] == pre_segs[0]);
                    }
                }
            }
            j = j + 1;
        }
    }
    proof {
        assert(av.take(n as int) =~~= av);
        assert(bv.take(m as int) =~~= bv);
        if a@ == b@ {
            assert(av == bv);
            lemma_identity_shape(segs@, out@, a@);
        }
        if tokens_disjoint(av, bv) {
            reveal(concat_tokens);
            if n == 0 {
                assert(a@ =~= Seq::<char>::empty());
            }
            if m == 0 {
                assert(b@ =~= Seq::<char>::empty());
            }
        }
        assert(spec_ops(av.skip(n as int), bv.skip(m as int)) == Seq::<(
            ChangeKind,
            Seq<char>,
        )>::empty()) by {
            reveal(spec_ops);
            assert(av.skip(n as int).len() == 0);
            assert(bv.skip(m as int).len() == 0);
        }
        assert(ops_done + spec_ops(av.skip(n as int), bv.skip(m as int)) =~~= ops_done);
    }
    (out, segs)
}

/// The text-difference computation of the comparison tool: tokenizes both
/// texts at the granularity, aligns them on a longest common subsequence,
/// and returns the interleaved output with its classified ranges. Range
/// indices count characters of `text`.
pub fn text_difference(original: &str, modified: &str, granularity: Granularity) -> (r: DiffResult)
    requires
        original@.len() < usize::MAX,
        modified@.len() < usize::MAX,
    ensures
        segments_partition(r.segments@, r.text@.len() as int),
        segments_coalesced(r.segments@),
        selected_text(r.segments@, r.text@, true) == original@,
        selected_text(r.segments@, r.text@, false) == modified@,
        original@ == modified@ ==> r.segments@.len() == (if original@.len() == 0 {
            0int
        } else {
            1int
        }),
        original@ == modified@ && original@.len() > 0 ==> r.segments@[0].kind == ChangeKind::Equal
            && r.text@ == original@,
        tokens_disjoint(spec_tokenize(granularity, original@), spec_tokenize(
            granularity,
            modified@,
        )) ==> {
            &&& r.segments@.len() == (if original@.len() == 0 {
                0int
            } else {
                1int
            }) + (if modified@.len() == 0 {
                0int
            } else {
                1int
            })
            &&& (original@.len() > 0 ==> r.segments@[0].kind == ChangeKind::Delete)
            &&& (modified@.len() > 0 ==> r.segments@.last().kind == ChangeKind::Insert)
        },
        r.text@ == spec_render(
            spec_ops(spec_tokenize(granularity, original@), spec_tokenize(granularity, modified@)),
        ).0,
        r.segments@ == spec_render(
            spec_ops(spec_tokenize(granularity, original@), spec_tokenize(granularity, modified@)),
        ).1,
{
    let a = str_to_chars(original);
    let b = str_to_chars(modified);
    let (out, segments) = diff_chars(&a, &b, granularity);
    DiffResult { text: chars_to_string(&out), segments }
}

} // verus!
