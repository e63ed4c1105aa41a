//! The rules of the article tool: which addresses it accepts, and where it
//! writes an article.

use vstd::prelude::*;
use crate::text::{chars_to_string, copy_range, push_str, starts_with, str_chars};

verus! {

// ---------------------------------------------------------------------------
// Addresses
// ---------------------------------------------------------------------------

/// The prefix of every WeChat article address.
pub open spec fn article_url_prefix() -> Seq<char> {
    "https://mp.weixin.qq.com/s/"@
}

/// The message for an address that is not a WeChat article address.
pub open spec fn invalid_url_message(url: Seq<char>) -> Seq<char> {
    "Invalid URL format. Must be a Weixin article URL (https://mp.weixin.qq.com/s/xxx). Got: "@
        + url
}

/// An address is accepted exactly when it begins with
/// `https://mp.weixin.qq.com/s/`; other pages of the same site, such as
/// `https://mp.weixin.qq.com/mp/...` albums and profiles, are not.
pub proof fn lemma_article_url_accepted(url: Seq<char>)
    ensures
        starts_with(url, article_url_prefix()) <==> starts_with(url, "https://mp.weixin.qq.com/s/"@),
        starts_with(url, "https://mp.weixin.qq.com/mp/"@) ==> !starts_with(url, article_url_prefix()),
        starts_with(url, article_url_prefix()) ==> url.len() >= 27 && url[25] == 's' && url[26] == '/',
{
    reveal_strlit("https://mp.weixin.qq.com/s/");
    reveal_strlit("https://mp.weixin.qq.com/mp/");
    if starts_with(url, "https://mp.weixin.qq.com/mp/"@) && starts_with(url, article_url_prefix()) {
        assert(url.take(28)[25] == "https://mp.weixin.qq.com/mp/"@[25]);
        assert(url.take(27)[25] == article_url_prefix()[25]);
    }
    if starts_with(url, article_url_prefix()) {
        assert(article_url_prefix()[25] == 's');
        assert(article_url_prefix()[26] == '/');
        assert(url.take(27)[25] == url[25]);
        assert(url.take(27)[26] == url[26]);
    }
}

/// Accepts exactly the addresses that begin with `https://mp.weixin.qq.com/s/`.
pub fn validate_article_url(url: &str) -> (r: Result<(), String>)
    ensures
        r is Ok <==> starts_with(url@, article_url_prefix()),
        r is Ok <==> starts_with(url@, "https://mp.weixin.qq.com/s/"@),
        r matches Err(m) ==> m@ == invalid_url_message(url@),
{
    let u = str_chars(url);
    let prefix = str_chars("https://mp.weixin.qq.com/s/");
    if crate::text::has_prefix(&u, &prefix) {
        Ok(())
    } else {
        let mut m = str_chars(
            "Invalid URL format. Must be a Weixin article URL (https://mp.weixin.qq.com/s/xxx). Got: ",
        );
        push_str(&mut m, url);
        Err(chars_to_string(&m))
    }
}

// ---------------------------------------------------------------------------
// File names
// ---------------------------------------------------------------------------

/// What `char::is_alphanumeric` says of `c` (Unicode `Alphabetic` or `Numeric`).
pub uninterp spec fn alphanumeric(c: char) -> bool;

/// An ASCII letter or digit.
pub open spec fn ascii_alphanumeric(c: char) -> bool {
    ('a' <= c && c <= 'z') || ('A' <= c && c <= 'Z') || ('0' <= c && c <= '9')
}

/// Calls `char::is_alphanumeric`; its answer is named by `alphanumeric`.
/// Among ASCII characters, as its documentation gives it (alphabetic or
/// numeric), exactly the letters and digits are alphanumeric.
#[verifier::external_body]
fn is_alphanumeric(c: char) -> (r: bool)
    ensures
        r == alphanumeric(c),
        (c as u32) < 128 ==> (r <==> ascii_alphanumeric(c)),
{
    c.is_alphanumeric()
}

/// A character that may stay in a file name.
pub open spec fn keeps_char(c: char) -> bool {
    alphanumeric(c) || c == '-' || c == '_' || c == '.' || c == ' '
}

/// `s` with every character that may not stay replaced by `_`.
pub open spec fn replace_unsafe(s: Seq<char>) -> Seq<char> {
    s.map_values(|c: char| if keeps_char(c) { c } else { '_' })
}

/// A character trimmed from the ends of a file name.
pub open spec fn is_edge(c: char) -> bool {
    c == '_' || c == ' '
}

/// `s` without leading `_` and spaces.
pub open spec fn trim_edges_start(s: Seq<char>) -> Seq<char>
    decreases s.len(),
{
    if s.len() > 0 && is_edge(s[0]) {
        trim_edges_start(s.drop_first())
    } else {
        s
    }
}

/// `s` without trailing `_` and spaces.
pub open spec fn trim_edges_end(s: Seq<char>) -> Seq<char>
    decreases s.len(),
{
    if s.len() > 0 && is_edge(s.last()) {
        trim_edges_end(s.drop_last())
    } else {
        s
    }
}

/// A file-name-safe form of `s`: unsafe characters become `_`, then `_` and
/// spaces are trimmed from both ends.
pub open spec fn sanitized(s: Seq<char>) -> Seq<char> {
    trim_edges_end(trim_edges_start(replace_unsafe(s)))
}

/// `trim_edges_start(s)` is a suffix of `s` that does not start with `_` or a space.
proof fn lemma_trim_edges_start(s: Seq<char>)
    ensures
        trim_edges_start(s).len() <= s.len(),
        trim_edges_start(s) == s.skip(s.len() - trim_edges_start(s).len()),
        trim_edges_start(s).len() > 0 ==> !is_edge(trim_edges_start(s)[0]),
    decreases s.len(),
{
    if s.len() > 0 && is_edge(s[0]) {
        lemma_trim_edges_start(s.drop_first());
        assert(s.drop_first().skip(s.drop_first().len() - trim_edges_start(s).len()) =~= s.skip(
            s.len() - trim_edges_start(s).len(),
        ));
    } else {
        assert(s.skip(0) =~= s);
    }
}

/// `trim_edges_end(s)` is a prefix of `s` that does not end with `_` or a space.
proof fn lemma_trim_edges_end(s: Seq<char>)
    ensures
        trim_edges_end(s).len() <= s.len(),
        trim_edges_end(s) == s.take(trim_edges_end(s).len() as int),
        trim_edges_end(s).len() > 0 ==> !is_edge(trim_edges_end(s).last()),
    decreases s.len(),
{
    if s.len() > 0 && is_edge(s.last()) {
        lemma_trim_edges_end(s.drop_last());
        assert(s.drop_last().take(trim_edges_end(s).len() as int) =~= s.take(
            trim_edges_end(s).len() as int,
        ));
    } else {
        assert(s.take(s.len() as int) =~= s);
    }
}

/// A sanitised name holds only characters that may stay in a file name,
/// neither starts nor ends with `_` or a space, and sanitising it again
/// changes nothing.
pub proof fn lemma_sanitized_shape(s: Seq<char>)
    ensures
        forall|i: int| 0 <= i < sanitized(s).len() ==> keeps_char(#[trigger] sanitized(s)[i]),
        sanitized(s).len() > 0 ==> !is_edge(sanitized(s)[0]) && !is_edge(sanitized(s).last()),
        sanitized(sanitized(s)) == sanitized(s),
{
    let m = replace_unsafe(s);
    let t = trim_edges_start(m);
    let x = sanitized(s);
    lemma_trim_edges_start(m);
    lemma_trim_edges_end(t);
    let a = m.len() - t.len();
    assert(x =~= m.subrange(a, a + x.len()));
    assert forall|i: int| 0 <= i < x.len() implies keeps_char(#[trigger] x[i]) by {
        assert(x[i] == m[a + i]);
    }
    if x.len() > 0 {
        assert(x[0] == t[0]);
    }
    assert(replace_unsafe(x) =~= x);
    if x.len() > 0 {
        assert(trim_edges_start(x) == x);
        assert(trim_edges_end(x) == x);
    } else {
        assert(trim_edges_start(x) =~= x);
        assert(trim_edges_end(trim_edges_start(x)) =~= x);
    }
}

/// Replaces the characters that may not stand in a file name with `_`
/// (letters and digits of any script, `-`, `_`, `.` and spaces stay), then
/// trims `_` and spaces from both ends.
pub fn sanitize_filename(s: &str) -> (r: String)
    ensures
        r@ == sanitized(s@),
        forall|i: int| 0 <= i < r@.len() ==> keeps_char(#[trigger] r@[i]),
        r@.len() > 0 ==> !is_edge(r@[0]) && !is_edge(r@.last()),
        sanitized(r@) == r@,
{
    proof {
        lemma_sanitized_shape(s@);
    }
    let cs = str_chars(s);
    let mut mapped: Vec<char> = Vec::new();
    let mut i: usize = 0;
    while i < cs.len()
        invariant
            i <= cs@.len(),
            cs@ == s@,
            mapped@ == replace_unsafe(cs@.take(i as int)),
        decreases cs.len() - i,
    {
        let c = cs[i];
        let keep = is_alphanumeric(c) || c == '-' || c == '_' || c == '.' || c == ' ';
        mapped.push(if keep { c } else { '_' });
        proof {
            assert(mapped@ =~= replace_unsafe(cs@.take(i + 1)));
        }
        i += 1;
    }
    proof {
        assert(cs@.take(cs@.len() as int) =~= cs@);
    }
    let n = mapped.len();
    let mut a: usize = 0;
    proof {
        assert(mapped@.subrange(0, n as int) =~= mapped@);
    }
    while a < n && (mapped[a] == '_' || mapped[a] == ' ')
        invariant
            a <= n == mapped@.len(),
            trim_edges_start(mapped@) == trim_edges_start(mapped@.subrange(a as int, n as int)),
        decreases n - a,
    {
        proof {
            assert(mapped@.subrange(a as int, n as int).drop_first() =~= mapped@.subrange(
                a + 1,
                n as int,
            ));
        }
        a += 1;
    }
    let mut b: usize = n;
    proof {
        assert(trim_edges_start(mapped@) == mapped@.subrange(a as int, n as int));
    }
    while b > a && (mapped[b - 1] == '_' || mapped[b - 1] == ' ')
        invariant
            a <= b <= n == mapped@.len(),
            sanitized(s@) == trim_edges_end(mapped@.subrange(a as int, b as int)),
        decreases b,
    {
        proof {
            assert(mapped@.subrange(a as int, b as int).drop_last() =~= mapped@.subrange(
                a as int,
                b - 1,
            ));
        }
        b -= 1;
    }
    chars_to_string(&copy_range(&mapped, a, b))
}

/// Most characters of an output folder name.
pub const FOLDER_NAME_MAX_CHARS: usize = 80;

/// The folder an article is written to: its sanitised title cut to 80
/// characters, or `untitled`.
pub open spec fn output_folder(title: Seq<char>) -> Seq<char> {
    let s = sanitized(title);
    if s.len() == 0 {
        "untitled"@
    } else if s.len() <= FOLDER_NAME_MAX_CHARS {
        s
    } else {
        s.take(FOLDER_NAME_MAX_CHARS as int)
    }
}

/// The name of the folder an article titled `title` is written to.
pub fn output_folder_name(title: &str) -> (r: String)
    ensures
        r@ == output_folder(title@),
        0 < r@.len() <= FOLDER_NAME_MAX_CHARS,
{
    proof {
        reveal_strlit("untitled");
    }
    let s = sanitize_filename(title);
    let cs = str_chars(s.as_str());
    if cs.len() == 0 {
        chars_to_string(&str_chars("untitled"))
    } else if cs.len() <= FOLDER_NAME_MAX_CHARS {
        s
    } else {
        chars_to_string(&copy_range(&cs, 0, FOLDER_NAME_MAX_CHARS))
    }
}

/// The base directory for output: the one asked for, else the configured
/// one, else `output` (empty values count as absent).
pub open spec fn output_base(requested: Option<Seq<char>>, configured: Option<Seq<char>>) -> Seq<char> {
    match requested {
        Some(d) if d.len() > 0 => d,
        _ => match configured {
            Some(d) if d.len() > 0 => d,
            _ => "output"@,
        },
    }
}

/// The base directory is the requested one when it is given and not empty;
/// otherwise the configured one when that is given and not empty (whether
/// the request left the directory out or gave it empty); otherwise `output`.
pub proof fn lemma_output_base_choice(requested: Option<Seq<char>>, configured: Option<Seq<char>>)
    ensures
        forall|d: Seq<char>|
            d.len() > 0 && requested == Some(d) ==> output_base(requested, configured) == d,
        forall|d: Seq<char>|
            d.len() > 0 && configured == Some(d) && (requested is None || requested == Some(
                Seq::<char>::empty(),
            )) ==> output_base(requested, configured) == d,
        (requested is None || requested == Some(Seq::<char>::empty())) && (configured is None
            || configured == Some(Seq::<char>::empty())) ==> output_base(requested, configured)
            == "output"@,
{
}

/// Chooses the base directory for output (see `output_base`).
pub fn output_base_dir(requested: Option<String>, configured: Option<String>) -> (r: String)
    ensures
        r@ == output_base(
            match requested {
                Some(d) => Some(d@),
                None => None,
            },
            match configured {
                Some(d) => Some(d@),
                None => None,
            },
        ),
{
    match requested {
        Some(d) if str_chars(d.as_str()).len() > 0 => d,
        _ => match configured {
            Some(d) if str_chars(d.as_str()).len() > 0 => d,
            _ => chars_to_string(&str_chars("output")),
        },
    }
}

} // verus!
