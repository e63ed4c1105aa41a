//! Collapsing runs of blank lines and spaces, done by the `regex` crate.

use vstd::prelude::*;

verus! {

/// Number of leading copies of `c` in `s`.
pub open spec fn run_length(s: Seq<char>, c: char) -> nat
    decreases s.len(),
{
    if s.len() > 0 && s[0] == c {
        1 + run_length(s.drop_first(), c)
    } else {
        0
    }
}

/// `s` with every maximal run of at least `min` copies of `c` replaced by
/// `rep`; shorter runs and all other characters are kept.
pub open spec fn collapse_runs(s: Seq<char>, c: char, min: nat, rep: Seq<char>) -> Seq<char>
    decreases s.len(),
{
    if s.len() == 0 {
        seq![]
    } else {
        let k = run_length(s, c);
        if k == 0 {
            seq![s[0]] + collapse_runs(s.drop_first(), c, min, rep)
        } else if k <= s.len() {
            (if k >= min {
                rep
            } else {
                s.take(k as int)
            }) + collapse_runs(s.skip(k as int), c, min, rep)
        } else {
            s
        }
    }
}

/// Every suffix of `s` starts with fewer than `min` copies of `c`: `s` has
/// no run of `min` or more copies of `c`.
pub open spec fn runs_below(s: Seq<char>, c: char, min: nat) -> bool
    decreases s.len(),
{
    if s.len() == 0 {
        true
    } else {
        run_length(s, c) < min && runs_below(s.drop_first(), c, min)
    }
}

/// `run_length` counts the leading copies of `c`, and stops at the first
/// other character.
pub proof fn lemma_run_length(s: Seq<char>, c: char)
    ensures
        run_length(s, c) <= s.len(),
        forall|j: int| 0 <= j < run_length(s, c) ==> s[j] == c,
        run_length(s, c) < s.len() ==> s[run_length(s, c) as int] != c,
    decreases s.len(),
{
    if s.len() > 0 && s[0] == c {
        lemma_run_length(s.drop_first(), c);
        assert forall|j: int| 0 <= j < run_length(s, c) implies s[j] == c by {
            if j > 0 {
                assert(s[j] == s.drop_first()[j - 1]);
            }
        }
    }
}

/// A run of `c` followed by `b` starts with the whole run and the run of `b`.
pub proof fn lemma_run_length_concat(a: Seq<char>, b: Seq<char>, c: char)
    requires
        forall|j: int| 0 <= j < a.len() ==> a[j] == c,
    ensures
        run_length(a + b, c) == a.len() + run_length(b, c),
    decreases a.len(),
{
    if a.len() > 0 {
        assert((a + b).drop_first() =~= a.drop_first() + b);
        lemma_run_length_concat(a.drop_first(), b, c);
    } else {
        assert(a + b =~= b);
    }
}

/// `runs_below` of a concatenation follows from `runs_below` of the tail
/// and a bound on the runs starting inside the head.
pub proof fn lemma_runs_below_concat(a: Seq<char>, b: Seq<char>, c: char, min: nat)
    requires
        runs_below(b, c, min),
        forall|i: int| 0 <= i < a.len() ==> #[trigger] run_length((a + b).skip(i), c) < min,
    ensures
        runs_below(a + b, c, min),
    decreases a.len(),
{
    if a.len() == 0 {
        assert(a + b =~= b);
    } else {
        assert((a + b).skip(0) =~= a + b);
        assert((a + b).drop_first() =~= a.drop_first() + b);
        assert forall|i: int| 0 <= i < a.drop_first().len() implies #[trigger] run_length(
            (a.drop_first() + b).skip(i),
            c,
        ) < min by {
            assert((a.drop_first() + b).skip(i) =~= (a + b).skip(i + 1));
        }
        lemma_runs_below_concat(a.drop_first(), b, c, min);
    }
}

/// Collapsing runs of `c` into `min - 1` copies leaves no run of `min`
/// copies, and the result starts with `c` only if `s` does.
pub proof fn lemma_collapse_runs_below(s: Seq<char>, c: char, min: nat, rep: Seq<char>)
    requires
        min >= 2,
        rep.len() == min - 1,
        forall|j: int| 0 <= j < rep.len() ==> rep[j] == c,
    ensures
        runs_below(collapse_runs(s, c, min, rep), c, min),
        collapse_runs(s, c, min, rep).len() > 0 && collapse_runs(s, c, min, rep)[0] == c ==> s.len()
            > 0 && s[0] == c,
    decreases s.len(),
{
    let out = collapse_runs(s, c, min, rep);
    if s.len() == 0 {
    } else {
        let k = run_length(s, c);
        lemma_run_length(s, c);
        if k == 0 {
            let tail = collapse_runs(s.drop_first(), c, min, rep);
            lemma_collapse_runs_below(s.drop_first(), c, min, rep);
            assert(out == seq![s[0]] + tail);
            assert forall|i: int| 0 <= i < 1 implies #[trigger] run_length((seq![s[0]] + tail).skip(i), c)
                < min by {
                assert((seq![s[0]] + tail).skip(0) =~= seq![s[0]] + tail);
            }
            lemma_runs_below_concat(seq![s[0]], tail, c, min);
        } else {
            let rest = s.skip(k as int);
            let tail = collapse_runs(rest, c, min, rep);
            lemma_collapse_runs_below(rest, c, min, rep);
            let piece = if k >= min {
                rep
            } else {
                s.take(k as int)
            };
            assert(out == piece + tail);
            assert forall|j: int| 0 <= j < piece.len() implies piece[j] == c by {}
            assert(tail.len() == 0 || tail[0] != c) by {
                if tail.len() > 0 && tail[0] == c {
                    assert(rest[0] == s[k as int]);
                }
            }
            assert(run_length(tail, c) == 0);
            assert forall|i: int| 0 <= i < piece.len() implies #[trigger] run_length(
                (piece + tail).skip(i),
                c,
            ) < min by {
                let pi = piece.skip(i);
                assert((piece + tail).skip(i) =~= pi + tail);
                lemma_run_length_concat(pi, tail, c);
            }
            lemma_runs_below_concat(piece, tail, c, min);
        }
    }
}

/// Collapsing runs of `c` (into a non-empty run of `c`) does not lengthen
/// any run of another character `d`.
pub proof fn lemma_collapse_keeps_runs(x: Seq<char>, c: char, min: nat, rep: Seq<char>, d: char, m: nat)
    requires
        c != d,
        m >= 1,
        rep.len() > 0,
        forall|j: int| 0 <= j < rep.len() ==> rep[j] == c,
        runs_below(x, d, m),
    ensures
        runs_below(collapse_runs(x, c, min, rep), d, m),
        run_length(collapse_runs(x, c, min, rep), d) <= run_length(x, d),
    decreases x.len(),
{
    let out = collapse_runs(x, c, min, rep);
    if x.len() == 0 {
    } else {
        let k = run_length(x, c);
        lemma_run_length(x, c);
        if k == 0 {
            let tail = collapse_runs(x.drop_first(), c, min, rep);
            lemma_collapse_keeps_runs(x.drop_first(), c, min, rep, d, m);
            assert(out == seq![x[0]] + tail);
            assert((seq![x[0]] + tail).drop_first() =~= tail);
            assert(x.drop_first() == x.drop_first());
            assert forall|i: int| 0 <= i < 1 implies #[trigger] run_length((seq![x[0]] + tail).skip(i), d)
                < m by {
                assert((seq![x[0]] + tail).skip(0) =~= seq![x[0]] + tail);
            }
            lemma_runs_below_concat(seq![x[0]], tail, d, m);
        } else {
            let rest = x.skip(k as int);
            let tail = collapse_runs(rest, c, min, rep);
            assert(runs_below(rest, d, m)) by {
                lemma_runs_below_skip(x, d, m, k as int);
            }
            lemma_collapse_keeps_runs(rest, c, min, rep, d, m);
            let piece = if k >= min {
                rep
            } else {
                x.take(k as int)
            };
            assert(out == piece + tail);
            assert(piece.len() > 0);
            assert forall|i: int| 0 <= i < piece.len() implies #[trigger] run_length(
                (piece + tail).skip(i),
                d,
            ) < m by {
                assert((piece + tail).skip(i)[0] == piece[i]);
            }
            lemma_runs_below_concat(piece, tail, d, m);
            assert((piece + tail)[0] == piece[0]);
        }
    }
}

/// `runs_below` holds of every suffix.
pub proof fn lemma_runs_below_skip(x: Seq<char>, c: char, min: nat, k: int)
    requires
        runs_below(x, c, min),
        0 <= k <= x.len(),
    ensures
        runs_below(x.skip(k), c, min),
    decreases k,
{
    if k == 0 {
        assert(x.skip(0) =~= x);
    } else {
        assert(x.drop_first().skip(k - 1) =~= x.skip(k));
        lemma_runs_below_skip(x.drop_first(), c, min, k - 1);
    }
}

/// Without a run of `min` copies of `c`, `min` copies of `c` occur nowhere.
pub proof fn lemma_runs_below_no_occurrence(x: Seq<char>, c: char, min: nat, i: int)
    requires
        runs_below(x, c, min),
        min >= 1,
    ensures
        !crate::text::occurs_at(x, Seq::new(min, |j: int| c), i),
    decreases x.len(),
{
    let p = Seq::new(min, |j: int| c);
    if 0 <= i && i + min <= x.len() {
        if i == 0 {
            if crate::text::occurs_at(x, p, 0) {
                assert forall|j: int| 0 <= j < min implies x[j] == c by {
                    assert(x.subrange(0, min as int)[j] == p[j]);
                }
                lemma_run_length_at_least(x, c, min);
            }
        } else {
            lemma_runs_below_no_occurrence(x.drop_first(), c, min, i - 1);
            if crate::text::occurs_at(x, p, i) {
                assert(x.drop_first().subrange(i - 1, i - 1 + min) =~= x.subrange(i, i + min));
            }
        }
    }
}

/// A sequence starting with `n` copies of `c` has a run of at least `n`.
pub proof fn lemma_run_length_at_least(x: Seq<char>, c: char, n: nat)
    requires
        n <= x.len(),
        forall|j: int| 0 <= j < n ==> x[j] == c,
    ensures
        run_length(x, c) >= n,
    decreases n,
{
    if n > 0 {
        assert forall|j: int| 0 <= j < n - 1 implies x.drop_first()[j] == c by {
            assert(x.drop_first()[j] == x[j + 1]);
        }
        lemma_run_length_at_least(x.drop_first(), c, (n - 1) as nat);
    }
}

/// Text without a run of `min` copies of `c` is left as it is by
/// collapsing such runs.
pub proof fn lemma_collapse_unchanged(s: Seq<char>, c: char, min: nat, rep: Seq<char>)
    requires
        runs_below(s, c, min),
    ensures
        collapse_runs(s, c, min, rep) == s,
    decreases s.len(),
{
    if s.len() > 0 {
        let k = run_length(s, c);
        lemma_run_length(s, c);
        if k == 0 {
            lemma_collapse_unchanged(s.drop_first(), c, min, rep);
            assert(seq![s[0]] + s.drop_first() =~= s);
        } else {
            lemma_runs_below_skip(s, c, min, k as int);
            lemma_collapse_unchanged(s.skip(k as int), c, min, rep);
            assert(s.take(k as int) + s.skip(k as int) =~= s);
        }
    }
}

/// `n` copies of `c`.
pub open spec fn copies(c: char, n: nat) -> Seq<char> {
    Seq::new(n, |j: int| c)
}

/// Where `min` copies of `c` occur nowhere, there is no run of `min` copies.
pub proof fn lemma_no_occurrence_runs_below(x: Seq<char>, c: char, min: nat)
    requires
        min >= 1,
        forall|i: int| !#[trigger] crate::text::occurs_at(x, copies(c, min), i),
    ensures
        runs_below(x, c, min),
    decreases x.len(),
{
    if x.len() > 0 {
        let p = copies(c, min);
        lemma_run_length(x, c);
        if run_length(x, c) >= min {
            assert(x.subrange(0, min as int) =~= p);
            assert(crate::text::occurs_at(x, p, 0));
        }
        assert forall|i: int| !crate::text::occurs_at(x.drop_first(), p, i) by {
            if crate::text::occurs_at(x.drop_first(), p, i) {
                assert(x.subrange(i + 1, i + 1 + min) =~= x.drop_first().subrange(i, i + min));
                assert(crate::text::occurs_at(x, p, i + 1));
            }
        }
        lemma_no_occurrence_runs_below(x.drop_first(), c, min);
    }
}

/// The regular expression `\n{3,}`: three or more newlines.
pub open spec fn newline_run_pattern() -> Seq<char> {
    seq!['\\', 'n', '{', '3', ',', '}']
}

/// The regular expression ` {2,}`: two or more spaces.
pub open spec fn space_run_pattern() -> Seq<char> {
    seq![' ', '{', '2', ',', '}']
}

/// What `regex::Regex::new(pattern)` followed by `Regex::replace_all(text,
/// replacement)` gives: `None` when `pattern` does not compile.
pub uninterp spec fn regex_replace_result(
    pattern: Seq<char>,
    text: Seq<char>,
    replacement: Seq<char>,
) -> Option<Seq<char>>;

/// Compiles `pattern` with `regex::Regex::new` and rewrites `text` with
/// `Regex::replace_all`; a pattern that does not compile gives `None`.
///
/// The result is named by `regex_replace_result`. For the two run patterns
/// `\n{3,}` and ` {2,}` the crate's documented semantics (leftmost-first,
/// greedy repetition, non-overlapping matches, a replacement without `$`
/// inserted literally) fix it: each maximal run of at least three newlines,
/// respectively two spaces, becomes the replacement.
#[verifier::external_body]
pub(crate) fn regex_replace_all(pattern: &str, text: &str, replacement: &str) -> (r: Option<String>)
    ensures
        r.deep_view() == regex_replace_result(pattern@, text@, replacement@),
        pattern@ == newline_run_pattern() && !replacement@.contains('$') ==> r.deep_view()
            == Some(collapse_runs(text@, '\n', 3, replacement@)),
        pattern@ == space_run_pattern() && !replacement@.contains('$') ==> r.deep_view()
            == Some(collapse_runs(text@, ' ', 2, replacement@)),
{
    regex::Regex::new(pattern).ok().map(|re| re.replace_all(text, replacement).into_owned())
}

} // verus!
