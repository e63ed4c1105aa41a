//! Character-sequence utilities shared by the parser and the output helpers.
//!
//! Text is handled as `Vec<char>` internally; each exec helper is tied to a
//! spec function over `Seq<char>` that says what it computes.

use vstd::prelude::*;

verus! {

/// `String::push` appends one character at the end of the string.
pub assume_specification[ String::push ](string: &mut String, ch: char)
    ensures
        final(string)@ == old(string)@.push(ch),
;

// ---------------------------------------------------------------------------
// White space and trimming
// ---------------------------------------------------------------------------

/// The Unicode `White_Space` property, the set that `char::is_whitespace`
/// and `str::trim` use.
pub open spec fn is_white_space(c: char) -> bool {
    ||| ('\u{9}' <= c && c <= '\u{d}')
    ||| c == ' '
    ||| c == '\u{85}'
    ||| c == '\u{a0}'
    ||| c == '\u{1680}'
    ||| ('\u{2000}' <= c && c <= '\u{200a}')
    ||| c == '\u{2028}'
    ||| c == '\u{2029}'
    ||| c == '\u{202f}'
    ||| c == '\u{205f}'
    ||| c == '\u{3000}'
}

/// Exec test for the Unicode `White_Space` property.
pub fn white_space(c: char) -> (r: bool)
    ensures
        r == is_white_space(c),
{
    ('\u{9}' <= c && c <= '\u{d}') || c == ' ' || c == '\u{85}' || c == '\u{a0}' || c == '\u{1680}'
        || ('\u{2000}' <= c && c <= '\u{200a}') || c == '\u{2028}' || c == '\u{2029}' || c
        == '\u{202f}' || c == '\u{205f}' || c == '\u{3000}'
}

/// `s` without its leading white space.
pub open spec fn trim_start(s: Seq<char>) -> Seq<char>
    decreases s.len(),
{
    if s.len() > 0 && is_white_space(s[0]) {
        trim_start(s.drop_first())
    } else {
        s
    }
}

/// `s` without its trailing white space.
pub open spec fn trim_end(s: Seq<char>) -> Seq<char>
    decreases s.len(),
{
    if s.len() > 0 && is_white_space(s.last()) {
        trim_end(s.drop_last())
    } else {
        s
    }
}

/// What `str::trim` returns: `s` without leading and trailing white space.
pub open spec fn trim(s: Seq<char>) -> Seq<char> {
    trim_end(trim_start(s))
}

/// `trim_start(s)` is a suffix of `s` that does not start with white space.
pub proof fn lemma_trim_start_suffix(s: Seq<char>)
    ensures
        trim_start(s).len() <= s.len(),
        trim_start(s) == s.skip(s.len() - trim_start(s).len()),
        trim_start(s).len() > 0 ==> !is_white_space(trim_start(s)[0]),
    decreases s.len(),
{
    if s.len() > 0 && is_white_space(s[0]) {
        lemma_trim_start_suffix(s.drop_first());
        assert(s.drop_first().skip(s.drop_first().len() - trim_start(s).len()) =~= s.skip(
            s.len() - trim_start(s).len(),
        ));
    } else {
        assert(s.skip(0) =~= s);
    }
}

/// `trim_end(s)` is a prefix of `s` that does not end with white space.
pub proof fn lemma_trim_end_prefix(s: Seq<char>)
    ensures
        trim_end(s).len() <= s.len(),
        trim_end(s) == s.take(trim_end(s).len() as int),
        trim_end(s).len() > 0 ==> !is_white_space(trim_end(s).last()),
    decreases s.len(),
{
    if s.len() > 0 && is_white_space(s.last()) {
        lemma_trim_end_prefix(s.drop_last());
        assert(s.drop_last().take(trim_end(s).len() as int) =~= s.take(trim_end(s).len() as int));
    } else {
        assert(s.take(s.len() as int) =~= s);
    }
}

/// `trim(s)` is a piece of `s` with no white space at either end.
pub proof fn lemma_trim_bounds(s: Seq<char>) -> (r: (int, int))
    ensures
        0 <= r.0 <= r.1 <= s.len(),
        trim(s) == s.subrange(r.0, r.1),
        trim(s).len() > 0 ==> !is_white_space(trim(s)[0]) && !is_white_space(trim(s).last()),
{
    let t = trim_start(s);
    lemma_trim_start_suffix(s);
    lemma_trim_end_prefix(t);
    let a = s.len() - t.len();
    let b = a + trim_end(t).len();
    assert(trim(s) =~= s.subrange(a, b));
    if trim(s).len() > 0 {
        assert(trim(s)[0] == t[0]);
    }
    (a, b)
}

/// The bounds of `trim(s)` inside `s`.
pub fn trim_range(s: &[char]) -> (r: (usize, usize))
    ensures
        r.0 <= r.1 <= s@.len(),
        s@.subrange(r.0 as int, r.1 as int) == trim(s@),
{
    let n = s.len();
    let mut i: usize = 0;
    proof {
        assert(s@.subrange(0, n as int) =~= s@);
    }
    while i < n && white_space(s[i])
        invariant
            i <= n == s@.len(),
            trim_start(s@) == trim_start(s@.subrange(i as int, n as int)),
        decreases n - i,
    {
        proof {
            assert(s@.subrange(i as int, n as int).drop_first() =~= s@.subrange(i + 1, n as int));
        }
        i += 1;
    }
    let mut j: usize = n;
    proof {
        assert(trim_start(s@) == s@.subrange(i as int, n as int));
    }
    while j > i && white_space(s[j - 1])
        invariant
            i <= j <= n == s@.len(),
            trim(s@) == trim_end(s@.subrange(i as int, j as int)),
        decreases j,
    {
        proof {
            assert(s@.subrange(i as int, j as int).drop_last() =~= s@.subrange(i as int, j - 1));
        }
        j -= 1;
    }
    (i, j)
}

/// A copy of `s[from..to]`.
pub fn copy_range(s: &[char], from: usize, to: usize) -> (r: Vec<char>)
    requires
        from <= to <= s@.len(),
    ensures
        r@ == s@.subrange(from as int, to as int),
{
    let mut r: Vec<char> = Vec::new();
    let mut k = from;
    while k < to
        invariant
            from <= k <= to <= s@.len(),
            r@ == s@.subrange(from as int, k as int),
        decreases to - k,
    {
        r.push(s[k]);
        k += 1;
        proof {
            assert(r@ =~= s@.subrange(from as int, k as int));
        }
    }
    r
}

/// `str::trim` on a character vector.
pub fn trimmed(s: &[char]) -> (r: Vec<char>)
    ensures
        r@ == trim(s@),
{
    let (a, b) = trim_range(s);
    copy_range(s, a, b)
}

// ---------------------------------------------------------------------------
// Prefixes, suffixes, occurrences
// ---------------------------------------------------------------------------

/// `s` begins with `p`.
pub open spec fn starts_with(s: Seq<char>, p: Seq<char>) -> bool {
    p.len() <= s.len() && s.take(p.len() as int) == p
}

/// `s` ends with `p`.
pub open spec fn ends_with(s: Seq<char>, p: Seq<char>) -> bool {
    p.len() <= s.len() && s.skip(s.len() - p.len()) == p
}

/// `p` occurs in `s` at position `i`.
pub open spec fn occurs_at(s: Seq<char>, p: Seq<char>, i: int) -> bool {
    0 <= i && i + p.len() <= s.len() && s.subrange(i, i + p.len()) == p
}

/// `p` occurs somewhere in `s` (what `str::contains` tests).
pub open spec fn contains_seq(s: Seq<char>, p: Seq<char>) -> bool {
    exists|i: int| occurs_at(s, p, i)
}

/// Exec test of `occurs_at`.
pub fn matches_at(s: &[char], p: &[char], i: usize) -> (r: bool)
    ensures
        r == occurs_at(s@, p@, i as int),
{
    if i > s.len() || p.len() > s.len() - i {
        return false;
    }
    let mut k: usize = 0;
    while k < p.len()
        invariant
            i + p@.len() <= s@.len(),
            i + p.len() <= s.len(),
            k <= p@.len(),
            forall|m: int| 0 <= m < k ==> s@[i + m] == p@[m],
        decreases p.len() - k,
    {
        assert(i + k < s@.len());
        if s[i + k] != p[k] {
            proof {
                assert(s@.subrange(i as int, i + p@.len())[k as int] != p@[k as int]);
            }
            return false;
        }
        k += 1;
    }
    proof {
        assert(s@.subrange(i as int, i + p@.len()) =~= p@);
    }
    true
}

/// `str::starts_with` on character slices.
pub fn has_prefix(s: &[char], p: &[char]) -> (r: bool)
    ensures
        r == starts_with(s@, p@),
{
    let r = matches_at(s, p, 0);
    proof {
        if p@.len() <= s@.len() {
            assert(s@.subrange(0, p@.len() as int) =~= s@.take(p@.len() as int));
        }
    }
    r
}

/// `str::ends_with` on character slices.
pub fn has_suffix(s: &[char], p: &[char]) -> (r: bool)
    ensures
        r == ends_with(s@, p@),
{
    if p.len() > s.len() {
        return false;
    }
    let r = matches_at(s, p, s.len() - p.len());
    proof {
        assert(s@.subrange(s@.len() - p@.len(), s@.len() as int) =~= s@.skip(
            s@.len() - p@.len(),
        ));
    }
    r
}

/// `str::contains` on character slices.
pub fn has_substring(s: &[char], p: &[char]) -> (r: bool)
    ensures
        r == contains_seq(s@, p@),
{
    if p.len() > s.len() {
        return false;
    }
    let last = s.len() - p.len();
    let mut i: usize = 0;
    loop
        invariant
            last + p@.len() == s@.len(),
            i <= last,
            forall|m: int| 0 <= m < i ==> !occurs_at(s@, p@, m),
        decreases last - i,
    {
        if matches_at(s, p, i) {
            return true;
        }
        if i == last {
            proof {
                assert forall|m: int| !occurs_at(s@, p@, m) by {
                    if 0 <= m <= last {
                    }
                }
            }
            return false;
        }
        i += 1;
    }
}

/// Number of non-overlapping occurrences of `p` in `s`, found from the
/// left (what `str::matches(p).count()` gives for a non-empty `p`).
pub open spec fn count_occurrences(s: Seq<char>, p: Seq<char>) -> nat
    decreases s.len(),
{
    if p.len() == 0 || s.len() < p.len() {
        0
    } else if starts_with(s, p) {
        1 + count_occurrences(s.skip(p.len() as int), p)
    } else {
        count_occurrences(s.drop_first(), p)
    }
}

/// Exec count of non-overlapping occurrences, from the left.
pub fn occurrences(s: &[char], p: &[char]) -> (r: usize)
    requires
        p@.len() > 0,
    ensures
        r == count_occurrences(s@, p@),
{
    let mut i: usize = 0;
    let mut count: usize = 0;
    proof {
        assert(s@.skip(0) =~= s@);
    }
    while i < s.len() && p.len() <= s.len() - i
        invariant
            i <= s@.len(),
            p@.len() > 0,
            count <= i,
            count + count_occurrences(s@.skip(i as int), p@) == count_occurrences(s@, p@),
        decreases s.len() - i,
    {
        let ghost rest = s@.skip(i as int);
        if matches_at(s, p, i) {
            proof {
                assert(rest.take(p@.len() as int) =~= s@.subrange(i as int, i + p@.len()));
                assert(rest.skip(p@.len() as int) =~= s@.skip(i + p@.len()));
            }
            count += 1;
            i += p.len();
        } else {
            proof {
                assert(rest.take(p@.len() as int) =~= s@.subrange(i as int, i + p@.len()));
                assert(rest.drop_first() =~= s@.skip(i + 1));
            }
            i += 1;
        }
    }
    count
}

// ---------------------------------------------------------------------------
// Lines and joining
// ---------------------------------------------------------------------------

/// Length of the first line of `s`: the number of characters before the
/// first `'\n'`, or `s.len()` if there is none.
pub open spec fn line_length(s: Seq<char>) -> nat
    decreases s.len(),
{
    if s.len() == 0 || s[0] == '\n' {
        0
    } else {
        1 + line_length(s.drop_first())
    }
}

/// A line taken from before a `'\n'`, without its `'\r'` if it had one.
pub open spec fn strip_carriage_return(l: Seq<char>) -> Seq<char> {
    if l.len() > 0 && l.last() == '\r' {
        l.drop_last()
    } else {
        l
    }
}

/// What `str::lines` yields: the pieces between `'\n'`s, a `"\r\n"` ending
/// counting as one line ending, and no empty piece after a final `'\n'`.
pub open spec fn lines(s: Seq<char>) -> Seq<Seq<char>>
    decreases s.len(),
{
    if s.len() == 0 {
        seq![]
    } else {
        let k = line_length(s);
        if k < s.len() {
            seq![strip_carriage_return(s.take(k as int))] + lines(s.skip((k + 1) as int))
        } else {
            seq![s]
        }
    }
}

/// `line_length(s)` is at most `s.len()`, and the characters before it are not newlines.
pub proof fn lemma_line_length(s: Seq<char>)
    ensures
        line_length(s) <= s.len(),
        line_length(s) < s.len() ==> s[line_length(s) as int] == '\n',
        forall|m: int| 0 <= m < line_length(s) ==> s[m] != '\n',
    decreases s.len(),
{
    if s.len() > 0 && s[0] != '\n' {
        lemma_line_length(s.drop_first());
        assert forall|m: int| 0 <= m < line_length(s) implies s[m] != '\n' by {
            if m > 0 {
                assert(s[m] == s.drop_first()[m - 1]);
            }
        }
    }
}

/// The character sequences held by a sequence of character vectors.
pub open spec fn seq_views(v: Seq<Vec<char>>) -> Seq<Seq<char>> {
    v.map_values(|x: Vec<char>| x@)
}

/// `parts` joined with `sep` between consecutive parts (what `join` gives).
pub open spec fn join(parts: Seq<Seq<char>>, sep: Seq<char>) -> Seq<char>
    decreases parts.len(),
{
    if parts.len() == 0 {
        seq![]
    } else if parts.len() == 1 {
        parts[0]
    } else {
        join(parts.drop_last(), sep) + sep + parts.last()
    }
}

/// The index of the first `'\n'` at or after `from`, or `s.len()`.
fn next_newline(s: &[char], from: usize) -> (r: usize)
    requires
        from <= s@.len(),
    ensures
        r == from + line_length(s@.skip(from as int)),
{
    let mut k = from;
    while k < s.len() && s[k] != '\n'
        invariant
            from <= k <= s@.len(),
            line_length(s@.skip(from as int)) == (k - from) + line_length(s@.skip(k as int)),
        decreases s.len() - k,
    {
        proof {
            assert(s@.skip(k as int).drop_first() =~= s@.skip(k + 1));
        }
        k += 1;
    }
    k
}

/// `str::lines` on a character slice.
pub fn split_lines(s: &[char]) -> (r: Vec<Vec<char>>)
    ensures
        seq_views(r@) == lines(s@),
{
    let mut r: Vec<Vec<char>> = Vec::new();
    let mut pos: usize = 0;
    proof {
        assert(s@.skip(0) =~= s@);
    }
    while pos < s.len()
        invariant
            pos <= s@.len(),
            seq_views(r@) + lines(s@.skip(pos as int)) == lines(s@),
        decreases s.len() - pos,
    {
        let ghost rest = s@.skip(pos as int);
        let k = next_newline(s, pos);
        proof {
            lemma_line_length(rest);
        }
        if k < s.len() {
            let mut line = copy_range(s, pos, k);
            if line.len() > 0 && line[line.len() - 1] == '\r' {
                line.pop();
            }
            proof {
                assert(rest.take(k - pos) =~= s@.subrange(pos as int, k as int));
                assert(rest.skip(k - pos + 1) =~= s@.skip(k + 1));
                assert(line@ == strip_carriage_return(rest.take(k - pos)));
            }
            let ghost old_r = seq_views(r@);
            r.push(line);
            proof {
                assert(seq_views(r@) =~= old_r.push(r@.last()@));
                assert(lines(rest) == seq![line@] + lines(s@.skip(k + 1)));
                assert(seq_views(r@) + lines(s@.skip(k + 1)) =~= old_r + lines(rest));
            }
            pos = k + 1;
        } else {
            let line = copy_range(s, pos, s.len());
            proof {
                assert(line@ =~= rest);
            }
            let ghost old_r = seq_views(r@);
            r.push(line);
            proof {
                assert(seq_views(r@) =~= old_r.push(r@.last()@));
                assert(s@.skip(s@.len() as int) =~= Seq::<char>::empty());
                assert(seq_views(r@) + lines(s@.skip(s@.len() as int)) =~= old_r + lines(rest));
            }
            pos = s.len();
        }
    }
    proof {
        assert(s@.skip(s@.len() as int) =~= Seq::<char>::empty());
        assert(seq_views(r@) + Seq::<Seq<char>>::empty() =~= seq_views(r@));
    }
    r
}

/// Appends `parts` joined with `sep` to `out`.
pub fn push_joined(out: &mut Vec<char>, parts: &Vec<Vec<char>>, sep: &[char])
    ensures
        final(out)@ == old(out)@ + join(seq_views(parts@), sep@),
{
    let ghost start = out@;
    let mut i: usize = 0;
    while i < parts.len()
        invariant
            i <= parts@.len(),
            out@ == start + join(seq_views(parts@).take(i as int), sep@),
        decreases parts.len() - i,
    {
        let ghost pv = seq_views(parts@);
        if i > 0 {
            push_all(out, sep);
        }
        push_all(out, &parts[i]);
        proof {
            let t1 = pv.take(i + 1);
            assert(t1.drop_last() =~= pv.take(i as int));
            assert(t1.last() == parts@[i as int]@);
            if i == 0 {
                assert(join(t1, sep@) == t1[0]);
                assert(join(pv.take(0), sep@) =~= Seq::<char>::empty());
            }
        }
        i += 1;
        proof {
            assert(out@ =~= start + join(seq_views(parts@).take(i as int), sep@));
        }
    }
    proof {
        assert(seq_views(parts@).take(parts@.len() as int) =~= seq_views(parts@));
    }
}

// ---------------------------------------------------------------------------
// Numbers
// ---------------------------------------------------------------------------

/// The decimal digit character for `d < 10`.
pub open spec fn digit_char(d: nat) -> char {
    seq!['0', '1', '2', '3', '4', '5', '6', '7', '8', '9'][d as int]
}

/// Decimal notation of `n`, as `format!("{}", n)` writes it.
pub open spec fn decimal(n: nat) -> Seq<char>
    decreases n,
{
    if n < 10 {
        seq![digit_char(n)]
    } else {
        decimal(n / 10).push(digit_char(n % 10))
    }
}

fn digit(d: usize) -> (c: char)
    requires
        d < 10,
    ensures
        c == digit_char(d as nat),
{
    let digits = ['0', '1', '2', '3', '4', '5', '6', '7', '8', '9'];
    proof {
        assert(digits@ =~= seq!['0', '1', '2', '3', '4', '5', '6', '7', '8', '9']);
    }
    digits[d]
}

/// Appends the decimal notation of `n` to `out`.
pub fn push_decimal(out: &mut Vec<char>, n: usize)
    ensures
        final(out)@ == old(out)@ + decimal(n as nat),
    decreases n,
{
    if n < 10 {
        out.push(digit(n));
        proof {
            assert(final(out)@ =~= old(out)@ + decimal(n as nat));
        }
    } else {
        push_decimal(out, n / 10);
        out.push(digit(n % 10));
        proof {
            assert(final(out)@ =~= old(out)@ + decimal(n as nat));
        }
    }
}

// ---------------------------------------------------------------------------
// Conversions and appending
// ---------------------------------------------------------------------------

/// The characters of a string slice.
pub fn str_chars(s: &str) -> (r: Vec<char>)
    ensures
        r@ == s@,
{
    let mut r: Vec<char> = Vec::new();
    for c in it: s.chars()
        invariant
            r@ == it.seq().take(it.index() as int),
    {
        r.push(c);
    }
    proof {
        assert(r@ =~= s@);
    }
    r
}

/// A `String` holding the given characters.
pub fn chars_to_string(v: &[char]) -> (r: String)
    ensures
        r@ == v@,
{
    let mut r = String::new();
    let mut i: usize = 0;
    while i < v.len()
        invariant
            i <= v@.len(),
            r@ == v@.take(i as int),
        decreases v.len() - i,
    {
        r.push(v[i]);
        i += 1;
        proof {
            assert(r@ =~= v@.take(i as int));
        }
    }
    proof {
        assert(v@.take(v@.len() as int) =~= v@);
    }
    r
}

/// Appends all of `s` to `out`.
pub fn push_all(out: &mut Vec<char>, s: &[char])
    ensures
        final(out)@ == old(out)@ + s@,
{
    let mut i: usize = 0;
    let ghost start = out@;
    while i < s.len()
        invariant
            i <= s@.len(),
            out@ == start + s@.take(i as int),
        decreases s.len() - i,
    {
        out.push(s[i]);
        i += 1;
        proof {
            assert(out@ =~= start + s@.take(i as int));
        }
    }
    proof {
        assert(s@.take(s@.len() as int) =~= s@);
    }
}

/// Appends the characters of a string slice to `out`.
pub fn push_str(out: &mut Vec<char>, s: &str)
    ensures
        final(out)@ == old(out)@ + s@,
{
    let cs = str_chars(s);
    push_all(out, &cs);
}

/// Character-wise equality of a vector and a string slice.
pub fn chars_equal(a: &[char], b: &str) -> (r: bool)
    ensures
        r == (a@ == b@),
{
    let bv = str_chars(b);
    if a.len() != bv.len() {
        return false;
    }
    let mut i: usize = 0;
    while i < a.len()
        invariant
            a@.len() == bv@.len(),
            bv@ == b@,
            i <= a@.len(),
            forall|m: int| 0 <= m < i ==> a@[m] == bv@[m],
        decreases a.len() - i,
    {
        if a[i] != bv[i] {
            proof {
                assert(a@[i as int] != bv@[i as int]);
            }
            return false;
        }
        i += 1;
    }
    proof {
        assert(a@ =~= bv@);
    }
    true
}

} // verus!
