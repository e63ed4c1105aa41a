//! Parsing a WeChat article page into structured data.
//!
//! Parsing runs in two steps. `WeixinParser::query_page` asks the `scraper`
//! crate everything the article needs: what each CSS selector finds in the
//! document, and the walk of the fragment re-parsed from the body's inner
//! HTML. `WeixinParser::assemble` then builds the article from those answers
//! (title, author, time, plain text, Markdown, image addresses), with an
//! exact contract.

use vstd::prelude::*;
use crate::collapse::{
    collapse_runs, copies, lemma_collapse_keeps_runs, lemma_collapse_runs_below, lemma_collapse_unchanged,
    lemma_no_occurrence_runs_below, lemma_runs_below_no_occurrence, newline_run_pattern, regex_replace_all, space_run_pattern,
};
use crate::html::{
    EventView, HtmlEvent, HtmlNode, NodeView, SelectedElement, SelectedView, build_tree, children_of,
    document_selection, events_view, fragment_events, fragment_traversal, select_in_document,
    selection_view, tree_of_events,
};
use crate::markdown::{
    attr_value, children_markdown, element_to_markdown, elem_attr, image_source,
    image_source_exec, text_nodes, text_nodes_of, collect_text,
};
use crate::text::{
    chars_equal, chars_to_string, contains_seq, copy_range, has_prefix, is_white_space, join,
    lemma_trim_bounds, lines, occurs_at, push_all, push_joined, push_str, seq_views, split_lines,
    starts_with, str_chars, trim, trim_end, trim_start, trimmed,
};

verus! {

// ---------------------------------------------------------------------------
// Article data
// ---------------------------------------------------------------------------

/// The structured content of one article.
pub struct ArticleData {
    pub title: String,
    pub author: String,
    pub publish_time: String,
    /// The body as plain text.
    pub content: String,
    /// The body as Markdown (headings, lists, quotes, images, tables, formulas).
    pub content_markdown: String,
    /// The addresses of the images in the article body.
    pub images: Vec<String>,
}

/// Mathematical value of an `ArticleData`.
pub struct ArticleView {
    pub title: Seq<char>,
    pub author: Seq<char>,
    pub publish_time: Seq<char>,
    pub content: Seq<char>,
    pub content_markdown: Seq<char>,
    pub images: Seq<Seq<char>>,
}

/// The character sequences held by a sequence of strings.
pub open spec fn strings_view(v: Seq<String>) -> Seq<Seq<char>> {
    v.map_values(|s: String| s@)
}

impl View for ArticleData {
    type V = ArticleView;

    open spec fn view(&self) -> ArticleView {
        ArticleView {
            title: self.title@,
            author: self.author@,
            publish_time: self.publish_time@,
            content: self.content@,
            content_markdown: self.content_markdown@,
            images: strings_view(self.images@),
        }
    }
}

/// A copy of a list of strings.
pub fn clone_strings(v: &Vec<String>) -> (r: Vec<String>)
    ensures
        strings_view(r@) == strings_view(v@),
{
    let mut r: Vec<String> = Vec::new();
    let mut i: usize = 0;
    while i < v.len()
        invariant
            i <= v@.len(),
            strings_view(r@) == strings_view(v@).take(i as int),
        decreases v.len() - i,
    {
        let s = v[i].clone();
        let ghost before = r@;
        r.push(s);
        proof {
            assert(strings_view(r@) =~= strings_view(before).push(v@[i as int]@));
            assert(strings_view(v@).take(i + 1) =~= strings_view(v@).take(i as int).push(
                v@[i as int]@,
            ));
        }
        i += 1;
    }
    proof {
        assert(strings_view(v@).take(v@.len() as int) =~= strings_view(v@));
    }
    r
}

impl ArticleData {
    /// A copy of this article.
    pub fn duplicate(&self) -> (r: ArticleData)
        ensures
            r@ == self@,
    {
        ArticleData {
            title: self.title.clone(),
            author: self.author.clone(),
            publish_time: self.publish_time.clone(),
            content: self.content.clone(),
            content_markdown: self.content_markdown.clone(),
            images: clone_strings(&self.images),
        }
    }
}

// ---------------------------------------------------------------------------
// Selectors
// ---------------------------------------------------------------------------

/// Title selectors, main and fallback.
pub open spec fn title_selector_list() -> Seq<Seq<char>> {
    seq!["h1#activity-name"@, "h1.rich_media_title"@]
}

/// Author selectors.
pub open spec fn author_selector_list() -> Seq<Seq<char>> {
    seq!["span#js_author_name"@, "span.rich_media_meta_nickname"@, "a#js_name"@]
}

/// Publication time selectors.
pub open spec fn publish_time_selector_list() -> Seq<Seq<char>> {
    seq!["em#publish_time"@, "em.rich_media_meta_text"@]
}

/// Body selectors.
pub open spec fn content_selector_list() -> Seq<Seq<char>> {
    seq!["div#js_content"@, "div.rich_media_content"@]
}

/// The selector of the `<meta property="...">` tag for `property`.
pub open spec fn meta_selector(property: Seq<char>) -> Seq<char> {
    "meta[property='"@ + property + "']"@
}

/// The character sequences of a list of string slices.
pub open spec fn strs_view(v: Seq<&str>) -> Seq<Seq<char>> {
    v.map_values(|s: &str| s@)
}

/// Title selectors: `h1#activity-name`, then `h1.rich_media_title`.
pub fn title_selectors() -> (r: Vec<&'static str>)
    ensures
        strs_view(r@) == title_selector_list(),
{
    let r = vec!["h1#activity-name", "h1.rich_media_title"];
    proof {
        assert(strs_view(r@) =~= title_selector_list());
    }
    r
}

/// Author selectors: the author name span, the nickname span, the account link.
pub fn author_selectors() -> (r: Vec<&'static str>)
    ensures
        strs_view(r@) == author_selector_list(),
{
    let r = vec!["span#js_author_name", "span.rich_media_meta_nickname", "a#js_name"];
    proof {
        assert(strs_view(r@) =~= author_selector_list());
    }
    r
}

/// Publication time selectors (`em` tags).
pub fn publish_time_selectors() -> (r: Vec<&'static str>)
    ensures
        strs_view(r@) == publish_time_selector_list(),
{
    let r = vec!["em#publish_time", "em.rich_media_meta_text"];
    proof {
        assert(strs_view(r@) =~= publish_time_selector_list());
    }
    r
}

/// Body selectors: `div#js_content`, then `div.rich_media_content`.
pub fn content_selectors() -> (r: Vec<&'static str>)
    ensures
        strs_view(r@) == content_selector_list(),
{
    let r = vec!["div#js_content", "div.rich_media_content"];
    proof {
        assert(strs_view(r@) =~= content_selector_list());
    }
    r
}

// ---------------------------------------------------------------------------
// What the parser asks the document
// ---------------------------------------------------------------------------

/// The answers that building an article needs from a page.
pub struct PageQueries {
    /// What each title selector finds.
    pub title: Vec<Option<Vec<SelectedElement>>>,
    /// What each author selector finds.
    pub author: Vec<Option<Vec<SelectedElement>>>,
    /// What each publication time selector finds.
    pub publish_time: Vec<Option<Vec<SelectedElement>>>,
    /// For each body selector, the walk of the fragment parsed from the
    /// inner HTML of the first element it finds (`None`: nothing found).
    pub content: Vec<Option<Vec<HtmlEvent>>>,
    /// The `og:title` meta tags.
    pub og_title: Option<Vec<SelectedElement>>,
    /// The `twitter:title` meta tags.
    pub twitter_title: Option<Vec<SelectedElement>>,
    /// The `article:published_time` meta tags.
    pub published_time: Option<Vec<SelectedElement>>,
    /// The `og:updated_time` meta tags.
    pub updated_time: Option<Vec<SelectedElement>>,
}

/// Mathematical value of `PageQueries`.
pub struct PageView {
    pub title: Seq<Option<Seq<SelectedView>>>,
    pub author: Seq<Option<Seq<SelectedView>>>,
    pub publish_time: Seq<Option<Seq<SelectedView>>>,
    pub content: Seq<Option<Seq<EventView>>>,
    pub og_title: Option<Seq<SelectedView>>,
    pub twitter_title: Option<Seq<SelectedView>>,
    pub published_time: Option<Seq<SelectedView>>,
    pub updated_time: Option<Seq<SelectedView>>,
}

/// Mathematical value of a list of selection results.
pub open spec fn selections_view(v: Seq<Option<Vec<SelectedElement>>>) -> Seq<Option<Seq<SelectedView>>> {
    v.map_values(|r: Option<Vec<SelectedElement>>| selection_view(r))
}

/// Mathematical value of an optional walk.
pub open spec fn walk_view(w: Option<Vec<HtmlEvent>>) -> Option<Seq<EventView>> {
    match w {
        Some(ev) => Some(events_view(ev@)),
        None => None,
    }
}

/// Mathematical value of a list of optional walks.
pub open spec fn walks_view(v: Seq<Option<Vec<HtmlEvent>>>) -> Seq<Option<Seq<EventView>>> {
    v.map_values(|w: Option<Vec<HtmlEvent>>| walk_view(w))
}

impl View for PageQueries {
    type V = PageView;

    open spec fn view(&self) -> PageView {
        PageView {
            title: selections_view(self.title@),
            author: selections_view(self.author@),
            publish_time: selections_view(self.publish_time@),
            content: walks_view(self.content@),
            og_title: selection_view(self.og_title),
            twitter_title: selection_view(self.twitter_title),
            published_time: selection_view(self.published_time),
            updated_time: selection_view(self.updated_time),
        }
    }
}

/// The walk of the fragment re-parsed from the inner HTML of the first
/// element that `selector` finds in `html`.
pub open spec fn content_fragment(html: Seq<char>, selector: Seq<char>) -> Option<Seq<EventView>> {
    match document_selection(html, selector) {
        Some(els) => if els.len() > 0 {
            Some(fragment_traversal(els[0].inner_html))
        } else {
            None
        },
        None => None,
    }
}

/// What `query_page` asks of `html`.
pub open spec fn page_queries(html: Seq<char>) -> PageView {
    PageView {
        title: title_selector_list().map_values(|s: Seq<char>| document_selection(html, s)),
        author: author_selector_list().map_values(|s: Seq<char>| document_selection(html, s)),
        publish_time: publish_time_selector_list().map_values(
            |s: Seq<char>| document_selection(html, s),
        ),
        content: content_selector_list().map_values(|s: Seq<char>| content_fragment(html, s)),
        og_title: document_selection(html, meta_selector("og:title"@)),
        twitter_title: document_selection(html, meta_selector("twitter:title"@)),
        published_time: document_selection(html, meta_selector("article:published_time"@)),
        updated_time: document_selection(html, meta_selector("og:updated_time"@)),
    }
}

// ---------------------------------------------------------------------------
// Building the article
// ---------------------------------------------------------------------------

/// The trimmed text of the first element found, for the first selector whose
/// first element has non-empty text; `fallback` if there is none.
pub open spec fn first_text(found: Seq<Option<Seq<SelectedView>>>, fallback: Seq<char>) -> Seq<char>
    decreases found.len(),
{
    if found.len() == 0 {
        fallback
    } else {
        match found[0] {
            Some(els) => if els.len() > 0 && trim(els[0].text).len() > 0 {
                trim(els[0].text)
            } else {
                first_text(found.drop_first(), fallback)
            },
            None => first_text(found.drop_first(), fallback),
        }
    }
}

/// The `content` attribute of the first meta tag found, if any.
pub open spec fn meta_content(found: Option<Seq<SelectedView>>) -> Option<Seq<char>> {
    match found {
        Some(els) => if els.len() > 0 {
            attr_value(els[0].attrs, "content"@)
        } else {
            None
        },
        None => None,
    }
}

/// The addresses of the images at or under `n`, in document order:
/// `data-src` or `src` of each `img`, inline `data:` images left out.
pub open spec fn node_images(n: NodeView) -> Seq<Seq<char>>
    decreases n,
{
    match n {
        NodeView::Element { name, attrs, children } => if name == "img"@ {
            match image_source(attrs) {
                Some(u) => seq![u],
                None => seq![],
            }
        } else {
            images_of(children)
        },
        _ => seq![],
    }
}

/// The addresses of the images under each of `cs`, in order.
pub open spec fn images_of(cs: Seq<NodeView>) -> Seq<Seq<char>>
    decreases cs,
{
    if cs.len() == 0 {
        seq![]
    } else {
        images_of(cs.drop_last()) + node_images(cs.last())
    }
}

/// The plain text of the first `h1` element at or under `n`, in document
/// order, trimmed.
pub open spec fn first_h1(n: NodeView) -> Option<Seq<char>>
    decreases n,
{
    match n {
        NodeView::Element { name, children, .. } => if name == "h1"@ {
            Some(trim(join(text_nodes_of(children), seq![])))
        } else {
            first_h1_of(children)
        },
        _ => None,
    }
}

/// The plain text of the first `h1` element under `cs`, in document order.
pub open spec fn first_h1_of(cs: Seq<NodeView>) -> Option<Seq<char>>
    decreases cs,
{
    if cs.len() == 0 {
        None
    } else {
        match first_h1(cs[0]) {
            Some(h) => Some(h),
            None => first_h1_of(cs.drop_first()),
        }
    }
}

/// Text with runs of three or more line breaks cut to two, runs of spaces
/// cut to one, and the ends trimmed.
pub open spec fn cleaned(s: Seq<char>) -> Seq<char> {
    trim(collapse_runs(collapse_runs(s, '\n', 3, "\n\n"@), ' ', 2, " "@))
}

/// Cleaned text holds no three line breaks in a row, no two spaces in a
/// row, and no white space at either end.
pub proof fn lemma_cleaned_shape(s: Seq<char>)
    ensures
        !contains_seq(cleaned(s), seq!['\n', '\n', '\n']),
        !contains_seq(cleaned(s), seq![' ', ' ']),
        cleaned(s).len() > 0 ==> !is_white_space(cleaned(s)[0]) && !is_white_space(
            cleaned(s).last(),
        ),
{
    reveal_strlit("\n\n");
    reveal_strlit(" ");
    let rep1: Seq<char> = "\n\n"@;
    let rep2: Seq<char> = " "@;
    assert(rep1 =~= seq!['\n', '\n']);
    assert(rep2 =~= seq![' ']);
    let y1 = collapse_runs(s, '\n', 3, rep1);
    let y2 = collapse_runs(y1, ' ', 2, rep2);
    lemma_collapse_runs_below(s, '\n', 3, rep1);
    lemma_collapse_runs_below(y1, ' ', 2, rep2);
    lemma_collapse_keeps_runs(y1, ' ', 2, rep2, '\n', 3);
    let (a, b) = lemma_trim_bounds(y2);
    let p3 = Seq::new(3, |j: int| '\n');
    let p2 = Seq::new(2, |j: int| ' ');
    assert(p3 =~= seq!['\n', '\n', '\n']);
    assert(p2 =~= seq![' ', ' ']);
    assert forall|i: int| !occurs_at(cleaned(s), p3, i) by {
        lemma_runs_below_no_occurrence(y2, '\n', 3, a + i);
        if occurs_at(cleaned(s), p3, i) {
            assert(y2.subrange(a + i, a + i + 3) =~= cleaned(s).subrange(i, i + 3));
        }
    }
    assert forall|i: int| !occurs_at(cleaned(s), p2, i) by {
        lemma_runs_below_no_occurrence(y2, ' ', 2, a + i);
        if occurs_at(cleaned(s), p2, i) {
            assert(y2.subrange(a + i, a + i + 2) =~= cleaned(s).subrange(i, i + 2));
        }
    }
}

/// Cleaning is idempotent: cleaning cleaned text changes nothing.
pub proof fn lemma_cleaned_idempotent(s: Seq<char>)
    ensures
        cleaned(cleaned(s)) == cleaned(s),
{
    let y = cleaned(s);
    lemma_cleaned_shape(s);
    let p3 = copies('\n', 3);
    let p2 = copies(' ', 2);
    assert(p3 =~= seq!['\n', '\n', '\n']);
    assert(p2 =~= seq![' ', ' ']);
    assert forall|i: int| !occurs_at(y, p3, i) by {
        if occurs_at(y, p3, i) {
            assert(contains_seq(y, seq!['\n', '\n', '\n']));
        }
    }
    assert forall|i: int| !occurs_at(y, p2, i) by {
        if occurs_at(y, p2, i) {
            assert(contains_seq(y, seq![' ', ' ']));
        }
    }
    lemma_no_occurrence_runs_below(y, '\n', 3);
    lemma_no_occurrence_runs_below(y, ' ', 2);
    lemma_collapse_unchanged(y, '\n', 3, "\n\n"@);
    lemma_collapse_unchanged(y, ' ', 2, " "@);
    if y.len() > 0 {
        assert(trim_start(y) == y);
        assert(trim_end(y) == y);
    } else {
        assert(trim(y) =~= y);
    }
}

/// The body as plain text: the cleaned text of the first body fragment whose
/// text is not empty, or the "no body" notice.
pub open spec fn content_plain(frags: Seq<Option<Seq<EventView>>>) -> Seq<char>
    decreases frags.len(),
{
    if frags.len() == 0 {
        "未找到正文内容"@
    } else {
        match frags[0] {
            Some(ev) => {
                let c = cleaned(join(text_nodes(tree_of_events(ev)), "\n"@));
                if c.len() > 0 {
                    c
                } else {
                    content_plain(frags.drop_first())
                }
            },
            None => content_plain(frags.drop_first()),
        }
    }
}

/// The body as Markdown: the cleaned Markdown of the first body fragment
/// that gives any, or nothing.
pub open spec fn content_markdown(frags: Seq<Option<Seq<EventView>>>) -> Seq<char>
    decreases frags.len(),
{
    if frags.len() == 0 {
        seq![]
    } else {
        match frags[0] {
            Some(ev) => {
                let c = cleaned(children_markdown(children_of(tree_of_events(ev))));
                if c.len() > 0 {
                    c
                } else {
                    content_markdown(frags.drop_first())
                }
            },
            None => content_markdown(frags.drop_first()),
        }
    }
}

/// The tree of the article body: the first body fragment whose cleaned
/// Markdown is not empty (the one `content_markdown` renders), if any.
pub open spec fn body_tree(frags: Seq<Option<Seq<EventView>>>) -> Option<NodeView>
    decreases frags.len(),
{
    if frags.len() == 0 {
        None
    } else {
        match frags[0] {
            Some(ev) => {
                let c = cleaned(children_markdown(children_of(tree_of_events(ev))));
                if c.len() > 0 {
                    Some(tree_of_events(ev))
                } else {
                    body_tree(frags.drop_first())
                }
            },
            None => body_tree(frags.drop_first()),
        }
    }
}

/// The image addresses of the article body.
pub open spec fn body_images(frags: Seq<Option<Seq<EventView>>>) -> Seq<Seq<char>> {
    match body_tree(frags) {
        Some(t) => node_images(t),
        None => seq![],
    }
}

/// The text of the first `h1` of the article body, if any.
pub open spec fn body_heading(frags: Seq<Option<Seq<EventView>>>) -> Option<Seq<char>> {
    match body_tree(frags) {
        Some(t) => first_h1(t),
        None => None,
    }
}

/// `s` without any number of leading copies of `p` (`trim_start_matches`).
pub open spec fn strip_prefixes(s: Seq<char>, p: Seq<char>) -> Seq<char>
    decreases s.len(),
{
    if p.len() > 0 && starts_with(s, p) {
        strip_prefixes(s.skip(p.len() as int), p)
    } else {
        s
    }
}

/// The first level-1 heading among `ls` outside code fences; `in_code`
/// tells whether the scan starts inside a fence.
pub open spec fn heading_scan(ls: Seq<Seq<char>>, in_code: bool) -> Option<Seq<char>>
    decreases ls.len(),
{
    if ls.len() == 0 {
        None
    } else if starts_with(ls[0], "```"@) {
        heading_scan(ls.drop_first(), !in_code)
    } else if !in_code && starts_with(ls[0], "# "@) && trim(strip_prefixes(ls[0], "# "@)).len() > 0 {
        Some(trim(strip_prefixes(ls[0], "# "@)))
    } else {
        heading_scan(ls.drop_first(), in_code)
    }
}

/// The text of the first `# ` heading of a Markdown text, outside code fences.
pub open spec fn first_heading(markdown: Seq<char>) -> Option<Seq<char>> {
    heading_scan(lines(markdown), false)
}

/// The notice used when no title is found.
pub open spec fn no_title() -> Seq<char> {
    "未找到标题"@
}

/// The extracted title: the title selectors, else `og:title`, else
/// `twitter:title`, else the first heading of the body Markdown.
pub open spec fn found_title(q: PageView, markdown: Seq<char>) -> Seq<char> {
    let t = first_text(q.title, seq![]);
    if t.len() > 0 {
        t
    } else {
        match meta_content(q.og_title) {
            Some(t) => t,
            None => match meta_content(q.twitter_title) {
                Some(t) => t,
                None => match first_heading(markdown) {
                    Some(h) => h,
                    None => seq![],
                },
            },
        }
    }
}

/// The title after the body check: the body's first `h1` when it is longer
/// than the extracted title `t`, else `t`.
pub open spec fn checked_title(t: Seq<char>, heading: Option<Seq<char>>) -> Seq<char> {
    match heading {
        Some(h) => if h.len() > t.len() {
            h
        } else {
            t
        },
        None => t,
    }
}

/// The article that the answers `q` describe.
pub open spec fn article_from(q: PageView) -> ArticleView {
    let author = first_text(q.author, "未知作者"@);
    let time = first_text(q.publish_time, seq![]);
    let body_md = content_markdown(q.content);
    let t = checked_title(found_title(q, body_md), body_heading(q.content));
    let title = if t.len() == 0 {
        no_title()
    } else {
        t
    };
    let markdown = if title.len() > 0 && title != no_title() {
        "# "@ + title + "\n\n"@ + body_md
    } else {
        body_md
    };
    let publish_time = if time.len() > 0 {
        time
    } else {
        match meta_content(q.published_time) {
            Some(p) => p,
            None => match meta_content(q.updated_time) {
                Some(p) => p,
                None => "未知时间"@,
            },
        }
    };
    ArticleView {
        title,
        author,
        publish_time,
        content: content_plain(q.content),
        content_markdown: markdown,
        images: body_images(q.content),
    }
}

/// The article parsed from the page `html`.
pub open spec fn parsed_article(html: Seq<char>) -> ArticleView {
    article_from(page_queries(html))
}

/// Whether the first element a selector found has non-empty trimmed text.
pub open spec fn found_text(found: Option<Seq<SelectedView>>) -> bool {
    found matches Some(els) && els.len() > 0 && trim(els[0].text).len() > 0
}

/// The selectors are tried in order: when selector `i` is the first whose
/// first element has text, the result is that element's trimmed text, and
/// no later selector is looked at.
pub proof fn lemma_first_text_takes_first(
    found: Seq<Option<Seq<SelectedView>>>,
    fallback: Seq<char>,
    i: int,
)
    requires
        0 <= i < found.len(),
        forall|j: int| 0 <= j < i ==> !found_text(#[trigger] found[j]),
        found_text(found[i]),
    ensures
        first_text(found, fallback) == trim(found[i].unwrap()[0].text),
    decreases i,
{
    if i > 0 {
        let rest = found.drop_first();
        assert(!found_text(found[0]));
        assert forall|j: int| 0 <= j < i - 1 implies !found_text(#[trigger] rest[j]) by {
            assert(rest[j] == found[j + 1]);
        }
        assert(rest[i - 1] == found[i]);
        lemma_first_text_takes_first(rest, fallback, i - 1);
    }
}

/// When no selector's first element has text, the fallback is the result.
pub proof fn lemma_first_text_fallback(found: Seq<Option<Seq<SelectedView>>>, fallback: Seq<char>)
    requires
        forall|j: int| 0 <= j < found.len() ==> !found_text(#[trigger] found[j]),
    ensures
        first_text(found, fallback) == fallback,
    decreases found.len(),
{
    if found.len() > 0 {
        let rest = found.drop_first();
        assert(!found_text(found[0]));
        assert forall|j: int| 0 <= j < rest.len() implies !found_text(#[trigger] rest[j]) by {
            assert(rest[j] == found[j + 1]);
        }
        lemma_first_text_fallback(rest, fallback);
    }
}

/// `first_text` gives a non-empty text when its fallback is non-empty.
pub proof fn lemma_first_text_nonempty(found: Seq<Option<Seq<SelectedView>>>, fallback: Seq<char>)
    requires
        fallback.len() > 0,
    ensures
        first_text(found, fallback).len() > 0,
    decreases found.len(),
{
    if found.len() > 0 {
        lemma_first_text_nonempty(found.drop_first(), fallback);
    }
}

/// The plain body text is never empty.
pub proof fn lemma_content_plain_nonempty(frags: Seq<Option<Seq<EventView>>>)
    ensures
        content_plain(frags).len() > 0,
    decreases frags.len(),
{
    if frags.len() == 0 {
        reveal_strlit("未找到正文内容");
    } else {
        lemma_content_plain_nonempty(frags.drop_first());
    }
}

/// Whether no address among `imgs` is an inline `data:` URL.
pub open spec fn none_inline(imgs: Seq<Seq<char>>) -> bool {
    forall|i: int| 0 <= i < imgs.len() ==> !starts_with(#[trigger] imgs[i], "data:"@)
}

/// No image address under a node is an inline `data:` URL.
pub proof fn lemma_node_images_not_inline(n: NodeView)
    ensures
        none_inline(node_images(n)),
    decreases n, 1int,
{
    match n {
        NodeView::Element { name, attrs, children } => {
            if name != "img"@ {
                lemma_images_of_not_inline(children);
            }
        },
        _ => {},
    }
}

/// No image address under a sequence of nodes is an inline `data:` URL.
pub proof fn lemma_images_of_not_inline(cs: Seq<NodeView>)
    ensures
        none_inline(images_of(cs)),
    decreases cs, 0int,
{
    if cs.len() > 0 {
        lemma_images_of_not_inline(cs.drop_last());
        lemma_node_images_not_inline(cs.last());
        let a = images_of(cs.drop_last());
        let b = node_images(cs.last());
        assert(images_of(cs) == a + b);
        assert forall|i: int| 0 <= i < (a + b).len() implies !starts_with(
            #[trigger] (a + b)[i],
            "data:"@,
        ) by {
            if i < a.len() {
                assert((a + b)[i] == a[i]);
            } else {
                assert((a + b)[i] == b[i - a.len()]);
            }
        }
    }
}

/// Whatever the page holds, the article has a title, an author and a body
/// text; no image address is an inline `data:` URL; and the Markdown opens
/// with the title as a level-1 heading exactly when a title was found.
pub proof fn lemma_article_shape(q: PageView)
    ensures
        article_from(q).title.len() > 0,
        article_from(q).author.len() > 0,
        article_from(q).content.len() > 0,
        forall|i: int| 0 <= i < article_from(q).images.len() ==> !starts_with(
            #[trigger] article_from(q).images[i],
            "data:"@,
        ),
        article_from(q).title != no_title() ==> article_from(q).content_markdown == "# "@
            + article_from(q).title + "\n\n"@ + content_markdown(q.content),
        article_from(q).title == no_title() ==> article_from(q).content_markdown
            == content_markdown(q.content),
{
    reveal_strlit("未找到标题");
    reveal_strlit("未知作者");
    lemma_first_text_nonempty(q.author, "未知作者"@);
    lemma_content_plain_nonempty(q.content);
    match body_tree(q.content) {
        Some(t) => lemma_node_images_not_inline(t),
        None => {},
    }
    assert(none_inline(article_from(q).images));
}

/// Parser of WeChat article pages.
pub struct WeixinParser;

impl WeixinParser {
    /// Creates a parser.
    pub fn new() -> (r: Self) {
        WeixinParser
    }

    /// Parses an article page: asks the page (`query_page`), then builds the
    /// article from the answers (`assemble`).
    pub fn parse(&self, html: &str) -> (r: ArticleData)
        ensures
            r@ == parsed_article(html@),
            r@.title.len() > 0,
            r@.author.len() > 0,
            r@.content.len() > 0,
            forall|i: int| 0 <= i < r@.images.len() ==> !starts_with(
                #[trigger] r@.images[i],
                "data:"@,
            ),
    {
        let q = self.query_page(html);
        proof {
            lemma_article_shape(q@);
        }
        self.assemble(&q)
    }

    /// Runs every query that building an article needs on the page `html`.
    pub fn query_page(&self, html: &str) -> (r: PageQueries)
        ensures
            r@ == page_queries(html@),
    {
        let title = self.select_each(html, &title_selectors());
        let author = self.select_each(html, &author_selectors());
        let publish_time = self.select_each(html, &publish_time_selectors());
        let content = self.content_fragments(html, &content_selectors());
        let og_title = self.select_meta(html, "og:title");
        let twitter_title = self.select_meta(html, "twitter:title");
        let published_time = self.select_meta(html, "article:published_time");
        let updated_time = self.select_meta(html, "og:updated_time");
        let r = PageQueries {
            title,
            author,
            publish_time,
            content,
            og_title,
            twitter_title,
            published_time,
            updated_time,
        };
        proof {
            assert(r@.title =~= page_queries(html@).title);
            assert(r@.author =~= page_queries(html@).author);
            assert(r@.publish_time =~= page_queries(html@).publish_time);
            assert(r@.content =~= page_queries(html@).content);
        }
        r
    }

    /// What each selector finds in `html`.
    fn select_each(&self, html: &str, selectors: &Vec<&'static str>) -> (r: Vec<
        Option<Vec<SelectedElement>>,
    >)
        ensures
            selections_view(r@) == strs_view(selectors@).map_values(
                |s: Seq<char>| document_selection(html@, s),
            ),
    {
        let mut r: Vec<Option<Vec<SelectedElement>>> = Vec::new();
        let mut i: usize = 0;
        while i < selectors.len()
            invariant
                i <= selectors@.len(),
                selections_view(r@) == strs_view(selectors@).take(i as int).map_values(
                    |s: Seq<char>| document_selection(html@, s),
                ),
            decreases selectors.len() - i,
        {
            let found = select_in_document(html, selectors[i]);
            let ghost before = r@;
            r.push(found);
            proof {
                assert(selections_view(r@) =~= selections_view(before).push(selection_view(found)));
                assert(strs_view(selectors@).take(i + 1) =~= strs_view(selectors@).take(
                    i as int,
                ).push(selectors@[i as int]@));
                assert(strs_view(selectors@).take(i + 1).map_values(
                    |s: Seq<char>| document_selection(html@, s),
                ) =~= strs_view(selectors@).take(i as int).map_values(
                    |s: Seq<char>| document_selection(html@, s),
                ).push(document_selection(html@, selectors@[i as int]@)));
            }
            i += 1;
        }
        proof {
            assert(strs_view(selectors@).take(selectors@.len() as int) =~= strs_view(selectors@));
        }
        r
    }

    /// For each body selector, the walk of the fragment re-parsed from the
    /// inner HTML of the first element it finds.
    fn content_fragments(&self, html: &str, selectors: &Vec<&'static str>) -> (r: Vec<
        Option<Vec<HtmlEvent>>,
    >)
        ensures
            walks_view(r@) == strs_view(selectors@).map_values(
                |s: Seq<char>| content_fragment(html@, s),
            ),
    {
        let mut r: Vec<Option<Vec<HtmlEvent>>> = Vec::new();
        let mut i: usize = 0;
        while i < selectors.len()
            invariant
                i <= selectors@.len(),
                walks_view(r@) == strs_view(selectors@).take(i as int).map_values(
                    |s: Seq<char>| content_fragment(html@, s),
                ),
            decreases selectors.len() - i,
        {
            let found = select_in_document(html, selectors[i]);
            let walk = match &found {
                Some(els) => if els.len() > 0 {
                    proof {
                        assert(selection_view(found).unwrap()[0] == els@[0]@);
                    }
                    Some(fragment_events(els[0].inner_html.as_str()))
                } else {
                    None
                },
                None => None,
            };
            let ghost before = r@;
            r.push(walk);
            proof {
                assert(walks_view(r@) =~= walks_view(before).push(walk_view(walk)));
                assert(strs_view(selectors@).take(i + 1) =~= strs_view(selectors@).take(
                    i as int,
                ).push(selectors@[i as int]@));
                assert(strs_view(selectors@).take(i + 1).map_values(
                    |s: Seq<char>| content_fragment(html@, s),
                ) =~= strs_view(selectors@).take(i as int).map_values(
                    |s: Seq<char>| content_fragment(html@, s),
                ).push(content_fragment(html@, selectors@[i as int]@)));
            }
            i += 1;
        }
        proof {
            assert(strs_view(selectors@).take(selectors@.len() as int) =~= strs_view(selectors@));
        }
        r
    }

    /// The meta tags `<meta property="...">` for `property`.
    fn select_meta(&self, html: &str, property: &str) -> (r: Option<Vec<SelectedElement>>)
        ensures
            selection_view(r) == document_selection(html@, meta_selector(property@)),
    {
        let mut selector = str_chars("meta[property='");
        push_str(&mut selector, property);
        push_str(&mut selector, "']");
        let selector = chars_to_string(&selector);
        select_in_document(html, selector.as_str())
    }

    /// Builds the article from the answers of `query_page`.
    pub fn assemble(&self, q: &PageQueries) -> (r: ArticleData)
        ensures
            r@ == article_from(q@),
    {
        proof {
            reveal_strlit("");
            assert(""@ =~= Seq::<char>::empty());
        }
        let author = self.extract_text(&q.author, "未知作者");
        let time = self.extract_text(&q.publish_time, "");
        let content = self.extract_content_plain(&q.content);
        let (body_md, body) = self.body_of(&q.content);
        let images = match &body {
            Some(t) => self.extract_images(t),
            None => Vec::new(),
        };
        let heading = match &body {
            Some(t) => self.extract_body_heading(t),
            None => None,
        };
        let selected = self.extract_text(&q.title, "");
        let found = if selected.len() > 0 {
            selected
        } else {
            match self.extract_meta_content(&q.og_title) {
                Some(t) => t,
                None => match self.extract_meta_content(&q.twitter_title) {
                    Some(t) => t,
                    None => match self.extract_first_heading(&body_md) {
                        Some(h) => h,
                        None => Vec::new(),
                    },
                },
            }
        };
        let checked = match heading {
            Some(h) => if h.len() > found.len() {
                h
            } else {
                found
            },
            None => found,
        };
        let title = if checked.len() == 0 {
            str_chars("未找到标题")
        } else {
            checked
        };
        let markdown = if title.len() > 0 && !chars_equal(&title, "未找到标题") {
            let mut m = str_chars("# ");
            push_all(&mut m, &title);
            push_str(&mut m, "\n\n");
            push_all(&mut m, &body_md);
            m
        } else {
            body_md
        };
        let publish_time = if time.len() > 0 {
            time
        } else {
            match self.extract_meta_content(&q.published_time) {
                Some(p) => p,
                None => match self.extract_meta_content(&q.updated_time) {
                    Some(p) => p,
                    None => str_chars("未知时间"),
                },
            }
        };
        let r = ArticleData {
            title: chars_to_string(&title),
            author: chars_to_string(&author),
            publish_time: chars_to_string(&publish_time),
            content: chars_to_string(&content),
            content_markdown: chars_to_string(&markdown),
            images,
        };
        proof {
            let qv = q@;
            let spec_md = content_markdown(qv.content);
            assert(body_md@ == spec_md);
            assert(found@ == found_title(qv, spec_md));
            let ct = checked_title(found_title(qv, spec_md), body_heading(qv.content));
            assert(checked@ == ct);
            let st = if ct.len() == 0 { no_title() } else { ct };
            assert(title@ == st);
            assert(r@.title == article_from(q@).title);
            assert(r@.images == article_from(q@).images);
            assert(r@.content_markdown == article_from(q@).content_markdown);
            assert(r@ == article_from(q@));
        }
        r
    }

    /// The trimmed text of the first element found, for the first selector
    /// whose first element has non-empty text; `fallback` if there is none.
    pub fn extract_text(&self, found: &Vec<Option<Vec<SelectedElement>>>, fallback: &str) -> (r: Vec<
        char,
    >)
        ensures
            r@ == first_text(selections_view(found@), fallback@),
    {
        let ghost fv = selections_view(found@);
        let mut i: usize = 0;
        proof {
            assert(fv.skip(0) =~= fv);
        }
        while i < found.len()
            invariant
                i <= found@.len(),
                fv == selections_view(found@),
                first_text(fv, fallback@) == first_text(fv.skip(i as int), fallback@),
            decreases found.len() - i,
        {
            proof {
                assert(fv.skip(i as int)[0] == selection_view(found@[i as int]));
                assert(fv.skip(i as int).drop_first() =~= fv.skip(i + 1));
            }
            match &found[i] {
                Some(els) => {
                    if els.len() > 0 {
                        let t = trimmed(&els[0].text);
                        if t.len() > 0 {
                            return t;
                        }
                    }
                },
                None => {},
            }
            i += 1;
        }
        proof {
            assert(fv.skip(i as int).len() == 0);
        }
        str_chars(fallback)
    }

    /// The `content` attribute of the first meta tag found, if any.
    pub fn extract_meta_content(&self, found: &Option<Vec<SelectedElement>>) -> (r: Option<Vec<char>>)
        ensures
            match r {
                Some(v) => meta_content(selection_view(*found)) == Some(v@),
                None => meta_content(selection_view(*found)) is None,
            },
    {
        match found {
            Some(els) => if els.len() > 0 {
                elem_attr(&els[0].attrs, "content")
            } else {
                None
            },
            None => None,
        }
    }

    /// The addresses of the images in the article body `body`, in
    /// document order: `data-src` or `src`, inline `data:` images left out.
    pub fn extract_images(&self, body: &HtmlNode) -> (r: Vec<String>)
        ensures
            strings_view(r@) == node_images(body@),
    {
        let mut r: Vec<String> = Vec::new();
        collect_images(body, &mut r);
        proof {
            assert(strings_view(r@) =~= node_images(body@));
        }
        r
    }

    /// The plain text of the first `h1` of the article body `body`, if any.
    pub fn extract_body_heading(&self, body: &HtmlNode) -> (r: Option<Vec<char>>)
        ensures
            match r {
                Some(h) => first_h1(body@) == Some(h@),
                None => first_h1(body@) is None,
            },
    {
        first_h1_exec(body)
    }

    /// Cuts runs of three or more line breaks to two and runs of spaces to
    /// one (both with the `regex` crate), then trims the ends.
    pub fn clean_text(&self, text: &[char]) -> (r: Vec<char>)
        ensures
            r@ == cleaned(text@),
            cleaned(r@) == r@,
            !contains_seq(r@, seq!['\n', '\n', '\n']),
            !contains_seq(r@, seq![' ', ' ']),
            r@.len() > 0 ==> !is_white_space(r@[0]) && !is_white_space(r@.last()),
    {
        proof {
            lemma_cleaned_shape(text@);
            lemma_cleaned_idempotent(text@);
        }
        let s = chars_to_string(text);
        proof {
            reveal_strlit("\\n{3,}");
            reveal_strlit("\n\n");
            reveal_strlit(" {2,}");
            reveal_strlit(" ");
            assert("\\n{3,}"@ =~= newline_run_pattern());
            assert(" {2,}"@ =~= space_run_pattern());
            assert(!"\n\n"@.contains('$'));
            assert(!" "@.contains('$'));
        }
        let lines_cut = regex_replace_all("\\n{3,}", s.as_str(), "\n\n");
        match lines_cut {
            Some(a) => {
                let spaces_cut = regex_replace_all(" {2,}", a.as_str(), " ");
                match spaces_cut {
                    Some(b) => trimmed(&str_chars(b.as_str())),
                    None => {
                        proof {
                            assert(false);
                        }
                        Vec::new()
                    },
                }
            },
            None => {
                proof {
                    assert(false);
                }
                Vec::new()
            },
        }
    }

    /// The body as plain text (see `content_plain`).
    pub fn extract_content_plain(&self, frags: &Vec<Option<Vec<HtmlEvent>>>) -> (r: Vec<char>)
        ensures
            r@ == content_plain(walks_view(frags@)),
    {
        let ghost fv = walks_view(frags@);
        let mut i: usize = 0;
        proof {
            assert(fv.skip(0) =~= fv);
        }
        while i < frags.len()
            invariant
                i <= frags@.len(),
                fv == walks_view(frags@),
                content_plain(fv) == content_plain(fv.skip(i as int)),
            decreases frags.len() - i,
        {
            proof {
                assert(fv.skip(i as int)[0] == walk_view(frags@[i as int]));
                assert(fv.skip(i as int).drop_first() =~= fv.skip(i + 1));
            }
            match &frags[i] {
                Some(ev) => {
                    let root = build_tree(ev);
                    let mut texts: Vec<Vec<char>> = Vec::new();
                    collect_text(&root, &mut texts);
                    let mut joined: Vec<char> = Vec::new();
                    let nl = str_chars("\n");
                    proof {
                        assert(seq_views(texts@) =~= text_nodes(root@));
                    }
                    push_joined(&mut joined, &texts, &nl);
                    proof {
                        assert(joined@ =~= join(text_nodes(root@), "\n"@));
                    }
                    let c = self.clean_text(&joined);
                    if c.len() > 0 {
                        return c;
                    }
                },
                None => {},
            }
            i += 1;
        }
        proof {
            assert(fv.skip(i as int).len() == 0);
        }
        str_chars("未找到正文内容")
    }

    /// The body as Markdown (see `content_markdown`).
    pub fn content_to_markdown(&self, frags: &Vec<Option<Vec<HtmlEvent>>>) -> (r: Vec<char>)
        ensures
            r@ == content_markdown(walks_view(frags@)),
    {
        let (md, _body) = self.body_of(frags);
        md
    }

    /// The body as Markdown, and the tree of the body it was rendered from.
    fn body_of(&self, frags: &Vec<Option<Vec<HtmlEvent>>>) -> (r: (Vec<char>, Option<HtmlNode>))
        ensures
            r.0@ == content_markdown(walks_view(frags@)),
            match r.1 {
                Some(t) => body_tree(walks_view(frags@)) == Some(t@),
                None => body_tree(walks_view(frags@)) is None,
            },
    {
        let ghost fv = walks_view(frags@);
        let mut i: usize = 0;
        proof {
            assert(fv.skip(0) =~= fv);
        }
        while i < frags.len()
            invariant
                i <= frags@.len(),
                fv == walks_view(frags@),
                content_markdown(fv) == content_markdown(fv.skip(i as int)),
                body_tree(fv) == body_tree(fv.skip(i as int)),
            decreases frags.len() - i,
        {
            proof {
                assert(fv.skip(i as int)[0] == walk_view(frags@[i as int]));
                assert(fv.skip(i as int).drop_first() =~= fv.skip(i + 1));
            }
            match &frags[i] {
                Some(ev) => {
                    let root = build_tree(ev);
                    let md = element_to_markdown(&root);
                    let c = self.clean_text(&md);
                    if c.len() > 0 {
                        return (c, Some(root));
                    }
                },
                None => {},
            }
            i += 1;
        }
        proof {
            assert(fv.skip(i as int).len() == 0);
        }
        (Vec::new(), None)
    }

    /// The text of the first `# ` heading of a Markdown text, outside code
    /// fences.
    pub fn extract_first_heading(&self, markdown: &[char]) -> (r: Option<Vec<char>>)
        ensures
            match r {
                Some(h) => first_heading(markdown@) == Some(h@),
                None => first_heading(markdown@) is None,
            },
    {
        let ls = split_lines(markdown);
        let ghost lv = seq_views(ls@);
        let fence = str_chars("```");
        let hash = str_chars("# ");
        let mut in_code_block = false;
        let mut i: usize = 0;
        proof {
            assert(lv.skip(0) =~= lv);
        }
        while i < ls.len()
            invariant
                i <= ls@.len(),
                lv == seq_views(ls@),
                lv == lines(markdown@),
                fence@ == "```"@,
                hash@ == "# "@,
                first_heading(markdown@) == heading_scan(lv.skip(i as int), in_code_block),
            decreases ls.len() - i,
        {
            proof {
                assert(lv.skip(i as int)[0] == ls@[i as int]@);
                assert(lv.skip(i as int).drop_first() =~= lv.skip(i + 1));
            }
            let line = &ls[i];
            if has_prefix(line, &fence) {
                in_code_block = !in_code_block;
            } else if !in_code_block && has_prefix(line, &hash) {
                let rest = strip_all_prefixes(line, &hash);
                let heading = trimmed(&rest);
                if heading.len() > 0 {
                    return Some(heading);
                }
            }
            i += 1;
        }
        None
    }
}

/// Appends the addresses of the images at or under `node` to `out`.
#[verifier::loop_isolation(false)]
fn collect_images(node: &HtmlNode, out: &mut Vec<String>)
    ensures
        strings_view(final(out)@) == strings_view(old(out)@) + node_images(node@),
    decreases node,
{
    match node {
        HtmlNode::Element { name, attrs, children } => {
            if chars_equal(name, "img") {
                let ghost before = out@;
                match image_source_exec(attrs) {
                    Some(u) => {
                        out.push(chars_to_string(&u));
                    },
                    None => {},
                }
                proof {
                    assert(strings_view(out@) =~= strings_view(before) + node_images(node@));
                }
                return;
            }
            let ghost start = strings_view(out@);
            let ghost cv = node@->children;
            let mut i: usize = 0;
            while i < children.len()
                invariant
                    i <= children@.len(),
                    cv.len() == children@.len(),
                    strings_view(out@) == start + images_of(cv.take(i as int)),
                decreases children.len() - i,
            {
                proof {
                    assert(decreases_to!(*node => *children));
                    assert(decreases_to!(*children => children@));
                    assert(decreases_to!(children@ => children@[i as int]));
                }
                collect_images(&children[i], out);
                proof {
                    assert(cv.take(i + 1).drop_last() =~= cv.take(i as int));
                    assert(cv.take(i + 1).last() == children@[i as int]@);
                }
                i += 1;
                proof {
                    assert(strings_view(out@) =~= start + images_of(cv.take(i as int)));
                }
            }
            proof {
                assert(cv.take(children@.len() as int) =~= cv);
            }
        },
        _ => {
            proof {
                assert(strings_view(out@) =~= strings_view(out@) + node_images(node@));
            }
        },
    }
}

/// The plain text of the first `h1` at or under `node` (see `first_h1`).
#[verifier::loop_isolation(false)]
fn first_h1_exec(node: &HtmlNode) -> (r: Option<Vec<char>>)
    ensures
        match r {
            Some(h) => first_h1(node@) == Some(h@),
            None => first_h1(node@) is None,
        },
    decreases node,
{
    match node {
        HtmlNode::Element { name, children, .. } => {
            let ghost cv = node@->children;
            if chars_equal(name, "h1") {
                let mut texts: Vec<Vec<char>> = Vec::new();
                collect_text(node, &mut texts);
                proof {
                    assert(seq_views(texts@) =~= text_nodes_of(cv));
                }
                let mut joined: Vec<char> = Vec::new();
                let nothing: Vec<char> = Vec::new();
                push_joined(&mut joined, &texts, &nothing);
                proof {
                    assert(nothing@ =~= Seq::<char>::empty());
                    assert(joined@ =~= join(text_nodes_of(cv), seq![]));
                }
                return Some(trimmed(&joined));
            }
            let mut i: usize = 0;
            proof {
                assert(cv.skip(0) =~= cv);
            }
            while i < children.len()
                invariant
                    i <= children@.len(),
                    cv.len() == children@.len(),
                    first_h1(node@) == first_h1_of(cv.skip(i as int)),
                decreases children.len() - i,
            {
                proof {
                    assert(decreases_to!(*node => *children));
                    assert(decreases_to!(*children => children@));
                    assert(decreases_to!(children@ => children@[i as int]));
                    assert(cv.skip(i as int)[0] == children@[i as int]@);
                    assert(cv.skip(i as int).drop_first() =~= cv.skip(i + 1));
                }
                match first_h1_exec(&children[i]) {
                    Some(h) => {
                        return Some(h);
                    },
                    None => {},
                }
                i += 1;
            }
            None
        },
        _ => None,
    }
}

/// `s` without any number of leading copies of `p`.
fn strip_all_prefixes(s: &[char], p: &[char]) -> (r: Vec<char>)
    ensures
        r@ == strip_prefixes(s@, p@),
{
    if p.len() == 0 {
        return copy_range(s, 0, s.len());
    }
    let mut i: usize = 0;
    proof {
        assert(s@.skip(0) =~= s@);
    }
    while p.len() <= s.len() - i && has_prefix_at(s, p, i)
        invariant
            i <= s@.len(),
            p@.len() > 0,
            strip_prefixes(s@, p@) == strip_prefixes(s@.skip(i as int), p@),
        decreases s.len() - i,
    {
        proof {
            assert(s@.skip(i as int).skip(p@.len() as int) =~= s@.skip(i + p@.len()));
        }
        i += p.len();
    }
    let r = copy_range(s, i, s.len());
    proof {
        assert(r@ =~= s@.skip(i as int));
    }
    r
}

/// Whether `s[i..]` starts with `p`.
fn has_prefix_at(s: &[char], p: &[char], i: usize) -> (r: bool)
    requires
        i <= s@.len(),
    ensures
        r == starts_with(s@.skip(i as int), p@),
{
    let r = crate::text::matches_at(s, p, i);
    proof {
        if p@.len() <= s@.len() - i {
            assert(s@.skip(i as int).take(p@.len() as int) =~= s@.subrange(i as int, i + p@.len()));
        }
    }
    r
}

} // verus!
