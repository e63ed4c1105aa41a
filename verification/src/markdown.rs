//! Converting an HTML tree into Markdown.
//!
//! The spec functions here say, tag by tag, what Markdown a node becomes; the
//! exec functions build it and are proved to agree.

use vstd::prelude::*;
use crate::html::{HtmlNode, NodeView, attrs_view, children_of};
use crate::text::{
    chars_equal, contains_seq, count_occurrences, copy_range, decimal, ends_with, has_prefix,
    has_substring, has_suffix, join, lines, occurrences, push_all, push_decimal, push_joined,
    push_str, seq_views, split_lines, starts_with, str_chars, trim, trimmed,
};

verus! {

// ---------------------------------------------------------------------------
// Attributes
// ---------------------------------------------------------------------------

/// The value of the first attribute called `name`, if any.
pub open spec fn attr_value(attrs: Seq<(Seq<char>, Seq<char>)>, name: Seq<char>) -> Option<Seq<char>>
    decreases attrs.len(),
{
    if attrs.len() == 0 {
        None
    } else if attrs[0].0 == name {
        Some(attrs[0].1)
    } else {
        attr_value(attrs.drop_first(), name)
    }
}

/// The value of the first attribute called `name`, or the empty text.
pub open spec fn attr_or_empty(attrs: Seq<(Seq<char>, Seq<char>)>, name: Seq<char>) -> Seq<char> {
    match attr_value(attrs, name) {
        Some(v) => v,
        None => seq![],
    }
}

/// The real address of an image: `data-src` (lazy loading), else `src`;
/// none when that value is an inline `data:` URL.
pub open spec fn image_source(attrs: Seq<(Seq<char>, Seq<char>)>) -> Option<Seq<char>> {
    let src = match attr_value(attrs, "data-src"@) {
        Some(v) => Some(v),
        None => attr_value(attrs, "src"@),
    };
    match src {
        Some(u) => if starts_with(u, "data:"@) {
            None
        } else {
            Some(u)
        },
        None => None,
    }
}

/// Looks up the first attribute called `name`.
pub fn elem_attr(attrs: &Vec<(Vec<char>, Vec<char>)>, name: &str) -> (r: Option<Vec<char>>)
    ensures
        match r {
            Some(v) => attr_value(attrs_view(attrs@), name@) == Some(v@),
            None => attr_value(attrs_view(attrs@), name@) is None,
        },
{
    let ghost av = attrs_view(attrs@);
    let mut i: usize = 0;
    proof {
        assert(av.skip(0) =~= av);
    }
    while i < attrs.len()
        invariant
            i <= attrs@.len(),
            av == attrs_view(attrs@),
            attr_value(av, name@) == attr_value(av.skip(i as int), name@),
        decreases attrs.len() - i,
    {
        proof {
            assert(av.skip(i as int)[0] == (attrs@[i as int].0@, attrs@[i as int].1@));
        }
        if chars_equal(&attrs[i].0, name) {
            return Some(copy_range(&attrs[i].1, 0, attrs[i].1.len()));
        }
        proof {
            assert(av.skip(i as int).drop_first() =~= av.skip(i + 1));
        }
        i += 1;
    }
    proof {
        assert(av.skip(i as int).len() == 0);
    }
    None
}

/// The value of the first attribute called `name`, or the empty text.
fn attr_or_empty_exec(attrs: &Vec<(Vec<char>, Vec<char>)>, name: &str) -> (r: Vec<char>)
    ensures
        r@ == attr_or_empty(attrs_view(attrs@), name@),
{
    match elem_attr(attrs, name) {
        Some(v) => v,
        None => Vec::new(),
    }
}

/// The real address of an image (see `image_source`).
pub fn image_source_exec(attrs: &Vec<(Vec<char>, Vec<char>)>) -> (r: Option<Vec<char>>)
    ensures
        match r {
            Some(v) => image_source(attrs_view(attrs@)) == Some(v@),
            None => image_source(attrs_view(attrs@)) is None,
        },
{
    let src = match elem_attr(attrs, "data-src") {
        Some(v) => Some(v),
        None => elem_attr(attrs, "src"),
    };
    match src {
        Some(u) => {
            let prefix = str_chars("data:");
            if has_prefix(&u, &prefix) {
                None
            } else {
                Some(u)
            }
        },
        None => None,
    }
}

// ---------------------------------------------------------------------------
// Text of a subtree
// ---------------------------------------------------------------------------

/// The text nodes under `n`, in document order (what `ElementRef::text`
/// yields for an element).
pub open spec fn text_nodes(n: NodeView) -> Seq<Seq<char>>
    decreases n,
{
    match n {
        NodeView::Text(t) => seq![t],
        NodeView::Element { children, .. } => text_nodes_of(children),
        NodeView::Other => seq![],
    }
}

/// The text nodes under each of `cs`, in order.
pub open spec fn text_nodes_of(cs: Seq<NodeView>) -> Seq<Seq<char>>
    decreases cs,
{
    if cs.len() == 0 {
        seq![]
    } else {
        text_nodes_of(cs.drop_last()) + text_nodes(cs.last())
    }
}

/// Collects the text nodes under `node`.
#[verifier::loop_isolation(false)]
pub fn collect_text(node: &HtmlNode, out: &mut Vec<Vec<char>>)
    ensures
        seq_views(final(out)@) == seq_views(old(out)@) + text_nodes(node@),
    decreases node,
{
    match node {
        HtmlNode::Text(t) => {
            let ghost before = out@;
            let c = copy_range(t, 0, t.len());
            out.push(c);
            proof {
                assert(node@ == NodeView::Text(t@));
                assert(text_nodes(node@) == seq![t@]);
                assert(c@ =~= t@);
                assert(seq_views(out@) =~= seq_views(before).push(c@));
                assert(seq_views(out@) =~= seq_views(before) + text_nodes(node@));
            }
        },
        HtmlNode::Element { children, .. } => {
            let ghost start = seq_views(out@);
            let ghost cv = node@->children;
            let mut i: usize = 0;
            while i < children.len()
                invariant
                    i <= children@.len(),
                    cv.len() == children@.len(),
                    seq_views(out@) == start + text_nodes_of(cv.take(i as int)),
                decreases children.len() - i,
            {
                proof {
                    assert(decreases_to!(*node => *children));
                    assert(decreases_to!(*children => children@));
                    assert(decreases_to!(children@ => children@[i as int]));
                }
                collect_text(&children[i], out);
                proof {
                    assert(cv.take(i + 1).drop_last() =~= cv.take(i as int));
                    assert(cv.take(i + 1).last() == children@[i as int]@);
                }
                i += 1;
                proof {
                    assert(seq_views(out@) =~= start + text_nodes_of(cv.take(i as int)));
                }
            }
            proof {
                assert(cv.take(children@.len() as int) =~= cv);
            }
        },
        HtmlNode::Other => {
            proof {
                assert(seq_views(out@) =~= seq_views(out@) + text_nodes(node@));
            }
        },
    }
}

// ---------------------------------------------------------------------------
// Markdown of nodes
// ---------------------------------------------------------------------------

/// `inner` between `open` and `close`, or nothing when `inner` is empty.
pub open spec fn wrap_nonempty(open: Seq<char>, inner: Seq<char>, close: Seq<char>) -> Seq<char> {
    if inner.len() == 0 {
        seq![]
    } else {
        open + inner + close
    }
}

/// A paragraph (`p`, `section`, `div`): its trimmed content and a blank
/// line; a paragraph that is one bold run becomes a level-3 heading.
pub open spec fn paragraph_markdown(inner: Seq<char>) -> Seq<char> {
    if inner.len() == 0 {
        seq![]
    } else if starts_with(inner, seq!['*', '*']) && ends_with(inner, seq!['*', '*'])
        && count_occurrences(inner, seq!['*', '*']) == 2 {
        "### "@ + inner.subrange(2, inner.len() - 2) + "\n\n"@
    } else {
        inner + "\n\n"@
    }
}

/// The level of a heading tag `h1` .. `h6`, or 0 for other tags.
pub open spec fn heading_level(name: Seq<char>) -> nat {
    if name == "h1"@ {
        1
    } else if name == "h2"@ {
        2
    } else if name == "h3"@ {
        3
    } else if name == "h4"@ {
        4
    } else if name == "h5"@ {
        5
    } else if name == "h6"@ {
        6
    } else {
        0
    }
}

/// A heading: `h1` keeps only its text (the article title is the one
/// level-1 heading), `h2` .. `h6` get that many `#`.
pub open spec fn heading_markdown(level: nat, inner: Seq<char>) -> Seq<char> {
    if inner.len() == 0 {
        seq![]
    } else if level == 1 {
        inner + "\n\n"@
    } else {
        Seq::new(level, |i: int| '#') + " "@ + inner + "\n\n"@
    }
}

/// An image: `![alt](address)` and a blank line, when it has an address.
pub open spec fn image_markdown(attrs: Seq<(Seq<char>, Seq<char>)>) -> Seq<char> {
    match image_source(attrs) {
        Some(url) => "!["@ + attr_or_empty(attrs, "alt"@) + "]("@ + url + ")"@ + "\n\n"@,
        None => seq![],
    }
}

/// A link: `[text](href)`, or just the text when there is no `href`.
pub open spec fn link_markdown(href: Seq<char>, inner: Seq<char>) -> Seq<char> {
    if inner.len() > 0 && href.len() > 0 {
        "["@ + inner + "]("@ + href + ")"@
    } else {
        inner
    }
}

/// A quotation: each line behind `> `, and a blank line.
pub open spec fn quote_markdown(inner: Seq<char>) -> Seq<char> {
    if inner.len() == 0 {
        seq![]
    } else {
        join(lines(inner).map_values(|l: Seq<char>| "> "@ + l), "\n"@) + "\n\n"@
    }
}

/// A `class` that marks rendered mathematics (MathJax, KaTeX).
pub open spec fn is_math_class(class: Seq<char>) -> bool {
    contains_seq(class, "math"@) || contains_seq(class, "MathJax"@) || contains_seq(class, "katex"@)
        || contains_seq(class, "formula"@)
}

/// A formula: inline (`$...$`) when its class says `inline`, else a display
/// formula on lines of its own between `$$` lines, and a blank line.
pub open spec fn math_markdown(class: Seq<char>, inner: Seq<char>) -> Seq<char> {
    if contains_seq(class, "inline"@) {
        wrap_nonempty("$"@, inner, "$"@)
    } else {
        wrap_nonempty("\n$$\n"@, inner, "\n$$\n\n"@)
    }
}

/// Markdown of the children `cs` of an element, concatenated.
pub open spec fn children_markdown(cs: Seq<NodeView>) -> Seq<char>
    decreases cs,
{
    if cs.len() == 0 {
        seq![]
    } else {
        children_markdown(cs.drop_last()) + node_markdown(cs.last())
    }
}

/// Markdown of one node: a text node gives its trimmed text, an element
/// what its tag calls for, anything else nothing.
pub open spec fn node_markdown(n: NodeView) -> Seq<char>
    decreases n,
{
    match n {
        NodeView::Text(t) => trim(t),
        NodeView::Other => seq![],
        NodeView::Element { name, attrs, children } => {
            let inner = trim(children_markdown(children));
            if name == "p"@ || name == "section"@ || name == "div"@ {
                paragraph_markdown(inner)
            } else if heading_level(name) > 0 {
                heading_markdown(heading_level(name), inner)
            } else if name == "img"@ {
                image_markdown(attrs)
            } else if name == "br"@ {
                "\n"@
            } else if name == "strong"@ || name == "b"@ {
                wrap_nonempty("**"@, inner, "**"@)
            } else if name == "em"@ || name == "i"@ {
                wrap_nonempty("*"@, inner, "*"@)
            } else if name == "a"@ {
                link_markdown(attr_or_empty(attrs, "href"@), inner)
            } else if name == "code"@ {
                wrap_nonempty("`"@, inner, "`"@)
            } else if name == "pre"@ {
                wrap_nonempty("\n```\n"@, trim(join(text_nodes_of(children), seq![])), "\n```\n"@)
            } else if name == "blockquote"@ {
                quote_markdown(inner)
            } else if name == "ul"@ {
                list_items(children, false) + "\n"@
            } else if name == "ol"@ {
                list_items(children, true) + "\n"@
            } else if name == "table"@ {
                table_markdown(table_rows(children))
            } else if name == "span"@ && is_math_class(attr_or_empty(attrs, "class"@)) {
                math_markdown(attr_or_empty(attrs, "class"@), inner)
            } else if name == "hr"@ {
                "\n---\n\n"@
            } else {
                inner
            }
        },
    }
}

/// Whether a node is an `li` element.
pub open spec fn is_list_item(n: NodeView) -> bool {
    n matches NodeView::Element { name, .. } && name == "li"@
}

/// The number of `li` elements among `cs`.
pub open spec fn list_item_count(cs: Seq<NodeView>) -> nat
    decreases cs.len(),
{
    if cs.len() == 0 {
        0
    } else {
        list_item_count(cs.drop_last()) + if is_list_item(cs.last()) {
            1nat
        } else {
            0nat
        }
    }
}

/// Paragraph elements (`p`, `section` and `div` alike) end their content
/// with a blank line: an element of one of these names whose trimmed child
/// Markdown `t` is not empty and does not open with `**` becomes `t` and
/// `\n\n`, and one without content becomes nothing.
pub proof fn lemma_paragraph_elements(
    name: Seq<char>,
    attrs: Seq<(Seq<char>, Seq<char>)>,
    children: Seq<NodeView>,
)
    requires
        name == "p"@ || name == "section"@ || name == "div"@,
    ensures
        trim(children_markdown(children)).len() > 0 && !starts_with(
            trim(children_markdown(children)),
            seq!['*', '*'],
        ) ==> node_markdown(NodeView::Element { name, attrs, children }) == trim(
            children_markdown(children),
        ) + seq!['\n', '\n'],
        trim(children_markdown(children)).len() == 0 ==> node_markdown(
            NodeView::Element { name, attrs, children },
        ) == Seq::<char>::empty(),
{
    reveal_strlit("\n\n");
    assert("\n\n"@ =~= seq!['\n', '\n']);
}

/// The items of a list whose children are `cs`: each non-empty `li` on a
/// line, `- ` in front, or its rank among the `li` children (from 1) and
/// `. ` when the list is ordered.
pub open spec fn list_items(cs: Seq<NodeView>, ordered: bool) -> Seq<char>
    decreases cs,
{
    if cs.len() == 0 {
        seq![]
    } else {
        list_items(cs.drop_last(), ordered) + list_item(
            cs.last(),
            list_item_count(cs.drop_last()),
            ordered,
        )
    }
}

/// One child of a list; `rank` is the number of `li` children before it.
pub open spec fn list_item(n: NodeView, rank: nat, ordered: bool) -> Seq<char>
    decreases n,
{
    match n {
        NodeView::Element { name, children, .. } => if name == "li"@ {
            let t = trim(children_markdown(children));
            if t.len() > 0 {
                (if ordered {
                    decimal(rank + 1) + ". "@
                } else {
                    "- "@
                }) + t + "\n"@
            } else {
                seq![]
            }
        } else {
            seq![]
        },
        _ => seq![],
    }
}

/// Whether a tag groups table rows (`thead`, `tbody`, `tfoot`).
pub open spec fn is_row_group(name: Seq<char>) -> bool {
    name == "thead"@ || name == "tbody"@ || name == "tfoot"@
}

/// The rows of a table whose children are `cs`: one per `tr` child, and one
/// per `tr` child of a `thead`, `tbody` or `tfoot` child, in document order.
pub open spec fn table_rows(cs: Seq<NodeView>) -> Seq<Seq<Seq<char>>>
    decreases cs,
{
    if cs.len() == 0 {
        seq![]
    } else {
        table_rows(cs.drop_last()) + table_row(cs.last())
    }
}

/// The rows a child of a table gives: its cells if it is a `tr`, the rows
/// of its `tr` children if it is a row group.
pub open spec fn table_row(n: NodeView) -> Seq<Seq<Seq<char>>>
    decreases n,
{
    match n {
        NodeView::Element { name, children, .. } => if name == "tr"@ {
            seq![row_cells(children)]
        } else if is_row_group(name) {
            group_rows(children)
        } else {
            seq![]
        },
        _ => seq![],
    }
}

/// The rows of a row group whose children are `cs`: one per `tr` child.
pub open spec fn group_rows(cs: Seq<NodeView>) -> Seq<Seq<Seq<char>>>
    decreases cs,
{
    if cs.len() == 0 {
        seq![]
    } else {
        group_rows(cs.drop_last()) + group_row(cs.last())
    }
}

/// The row a child of a row group gives: its cells if it is a `tr`.
pub open spec fn group_row(n: NodeView) -> Seq<Seq<Seq<char>>>
    decreases n,
{
    match n {
        NodeView::Element { name, children, .. } => if name == "tr"@ {
            seq![row_cells(children)]
        } else {
            seq![]
        },
        _ => seq![],
    }
}

/// The cells of a row whose children are `cs`: one per `th` or `td` child.
pub open spec fn row_cells(cs: Seq<NodeView>) -> Seq<Seq<char>>
    decreases cs,
{
    if cs.len() == 0 {
        seq![]
    } else {
        row_cells(cs.drop_last()) + row_cell(cs.last())
    }
}

/// The cell a child of a row gives: its trimmed Markdown if it is `th`/`td`.
pub open spec fn row_cell(n: NodeView) -> Seq<Seq<char>>
    decreases n,
{
    match n {
        NodeView::Element { name, children, .. } => if name == "th"@ || name == "td"@ {
            seq![trim(children_markdown(children))]
        } else {
            seq![]
        },
        _ => seq![],
    }
}

/// The largest number of cells in a row.
pub open spec fn max_cells(rows: Seq<Seq<Seq<char>>>) -> nat
    decreases rows.len(),
{
    if rows.len() == 0 {
        0
    } else {
        let m = max_cells(rows.drop_last());
        if rows.last().len() > m {
            rows.last().len()
        } else {
            m
        }
    }
}

/// No row has more cells than `max_cells`.
pub proof fn lemma_max_cells_bound(rows: Seq<Seq<Seq<char>>>)
    ensures
        forall|i: int| 0 <= i < rows.len() ==> #[trigger] rows[i].len() <= max_cells(rows),
    decreases rows.len(),
{
    if rows.len() > 0 {
        lemma_max_cells_bound(rows.drop_last());
        assert forall|i: int| 0 <= i < rows.len() implies #[trigger] rows[i].len() <= max_cells(rows) by {
            if i < rows.len() - 1 {
                assert(rows[i] == rows.drop_last()[i]);
            }
        }
    }
}

/// Every row of a Markdown table is filled up to the widest row: all its
/// lines have the same number of cells.
pub proof fn lemma_table_rows_padded(rows: Seq<Seq<Seq<char>>>)
    ensures
        forall|i: int| 0 <= i < rows.len() ==> #[trigger] pad_row(rows[i], max_cells(rows)).len()
            == max_cells(rows),
{
    lemma_max_cells_bound(rows);
}

/// `row` filled up with empty cells to `width` cells.
pub open spec fn pad_row(row: Seq<Seq<char>>, width: nat) -> Seq<Seq<char>> {
    if row.len() >= width {
        row
    } else {
        row + Seq::new((width - row.len()) as nat, |i: int| Seq::<char>::empty())
    }
}

/// One table line: `| a | b |` and a line break.
pub open spec fn row_line(row: Seq<Seq<char>>) -> Seq<char> {
    "| "@ + join(row, " | "@) + " |"@ + "\n"@
}

/// The line under the header: `|---|---|` and a line break.
pub open spec fn separator_line(width: nat) -> Seq<char> {
    "|"@ + join(Seq::new(width, |i: int| "---"@), "|"@) + "|"@ + "\n"@
}

/// The lines of the body rows, each filled up to `width` cells.
pub open spec fn body_lines(rows: Seq<Seq<Seq<char>>>, width: nat) -> Seq<char>
    decreases rows.len(),
{
    if rows.len() == 0 {
        seq![]
    } else {
        body_lines(rows.drop_last(), width) + row_line(pad_row(rows.last(), width))
    }
}

/// A Markdown table: header row, separator, body rows, and a blank line;
/// nothing for a table without rows or cells.
pub open spec fn table_markdown(rows: Seq<Seq<Seq<char>>>) -> Seq<char> {
    let width = max_cells(rows);
    if rows.len() == 0 || width == 0 {
        seq![]
    } else {
        row_line(pad_row(rows[0], width)) + separator_line(width) + body_lines(rows.drop_first(), width)
            + "\n"@
    }
}

// ---------------------------------------------------------------------------
// Exec conversion
// ---------------------------------------------------------------------------

/// `count_occurrences(s, p)` copies of `p` fit in `s`.
pub proof fn lemma_count_occurrences_fit(s: Seq<char>, p: Seq<char>)
    requires
        p.len() > 0,
    ensures
        count_occurrences(s, p) * p.len() <= s.len(),
    decreases s.len(),
{
    if s.len() < p.len() {
        assert(count_occurrences(s, p) == 0);
    } else if starts_with(s, p) {
        let rest = s.skip(p.len() as int);
        lemma_count_occurrences_fit(rest, p);
        let c = count_occurrences(rest, p);
        assert(count_occurrences(s, p) == 1 + c);
        assert(rest.len() == s.len() - p.len());
        assert((1 + c) * p.len() == p.len() + c * p.len()) by (nonlinear_arith);
    } else {
        lemma_count_occurrences_fit(s.drop_first(), p);
        assert(count_occurrences(s, p) == count_occurrences(s.drop_first(), p));
        assert(count_occurrences(s.drop_first(), p) * p.len() <= s.len() - 1);
    }
}

/// Markdown of a paragraph's trimmed content.
fn push_paragraph(inner: &Vec<char>, out: &mut Vec<char>)
    ensures
        final(out)@ == old(out)@ + paragraph_markdown(inner@),
{
    if inner.len() == 0 {
        proof {
            assert(final(out)@ =~= old(out)@ + paragraph_markdown(inner@));
        }
        return;
    }
    let stars = vec!['*', '*'];
    if has_prefix(inner, &stars) && has_suffix(inner, &stars) && occurrences(inner, &stars) == 2 {
        proof {
            lemma_count_occurrences_fit(inner@, stars@);
        }
        push_str(out, "### ");
        let mid = copy_range(inner, 2, inner.len() - 2);
        push_all(out, &mid);
        push_str(out, "\n\n");
    } else {
        push_all(out, inner);
        push_str(out, "\n\n");
    }
    proof {
        assert(final(out)@ =~= old(out)@ + paragraph_markdown(inner@));
    }
}

/// The heading level of a tag name (0 for non-headings).
fn heading_level_exec(name: &Vec<char>) -> (r: usize)
    ensures
        r == heading_level(name@),
{
    if chars_equal(name, "h1") {
        1
    } else if chars_equal(name, "h2") {
        2
    } else if chars_equal(name, "h3") {
        3
    } else if chars_equal(name, "h4") {
        4
    } else if chars_equal(name, "h5") {
        5
    } else if chars_equal(name, "h6") {
        6
    } else {
        0
    }
}

fn push_heading(level: usize, inner: &Vec<char>, out: &mut Vec<char>)
    requires
        level >= 1,
    ensures
        final(out)@ == old(out)@ + heading_markdown(level as nat, inner@),
{
    if inner.len() == 0 {
        proof {
            assert(final(out)@ =~= old(out)@ + heading_markdown(level as nat, inner@));
        }
        return;
    }
    if level == 1 {
        push_all(out, inner);
        push_str(out, "\n\n");
    } else {
        let ghost start = out@;
        let mut k: usize = 0;
        while k < level
            invariant
                k <= level,
                out@ == start + Seq::new(k as nat, |i: int| '#'),
            decreases level - k,
        {
            out.push('#');
            k += 1;
            proof {
                assert(out@ =~= start + Seq::new(k as nat, |i: int| '#'));
            }
        }
        push_str(out, " ");
        push_all(out, inner);
        push_str(out, "\n\n");
    }
    proof {
        assert(final(out)@ =~= old(out)@ + heading_markdown(level as nat, inner@));
    }
}

fn push_image(attrs: &Vec<(Vec<char>, Vec<char>)>, out: &mut Vec<char>)
    ensures
        final(out)@ == old(out)@ + image_markdown(attrs_view(attrs@)),
{
    match image_source_exec(attrs) {
        Some(url) => {
            let alt = attr_or_empty_exec(attrs, "alt");
            push_str(out, "![");
            push_all(out, &alt);
            push_str(out, "](");
            push_all(out, &url);
            push_str(out, ")");
            push_str(out, "\n\n");
        },
        None => {},
    }
    proof {
        assert(final(out)@ =~= old(out)@ + image_markdown(attrs_view(attrs@)));
    }
}

fn push_wrapped(open: &str, inner: &Vec<char>, close: &str, out: &mut Vec<char>)
    ensures
        final(out)@ == old(out)@ + wrap_nonempty(open@, inner@, close@),
{
    if inner.len() > 0 {
        push_str(out, open);
        push_all(out, inner);
        push_str(out, close);
    }
    proof {
        assert(final(out)@ =~= old(out)@ + wrap_nonempty(open@, inner@, close@));
    }
}

fn push_link(href: &Vec<char>, inner: &Vec<char>, out: &mut Vec<char>)
    ensures
        final(out)@ == old(out)@ + link_markdown(href@, inner@),
{
    if inner.len() > 0 && href.len() > 0 {
        push_str(out, "[");
        push_all(out, inner);
        push_str(out, "](");
        push_all(out, href);
        push_str(out, ")");
    } else {
        push_all(out, inner);
    }
    proof {
        assert(final(out)@ =~= old(out)@ + link_markdown(href@, inner@));
    }
}

fn push_quote(inner: &Vec<char>, out: &mut Vec<char>)
    ensures
        final(out)@ == old(out)@ + quote_markdown(inner@),
{
    if inner.len() == 0 {
        proof {
            assert(final(out)@ =~= old(out)@ + quote_markdown(inner@));
        }
        return;
    }
    let ls = split_lines(inner);
    let ghost lv = lines(inner@);
    let mut quoted: Vec<Vec<char>> = Vec::new();
    let mut i: usize = 0;
    while i < ls.len()
        invariant
            i <= ls@.len(),
            seq_views(ls@) == lv,
            seq_views(quoted@) == lv.take(i as int).map_values(|l: Seq<char>| "> "@ + l),
        decreases ls.len() - i,
    {
        let mut q = str_chars("> ");
        push_all(&mut q, &ls[i]);
        let ghost before = quoted@;
        quoted.push(q);
        proof {
            assert(seq_views(quoted@) =~= seq_views(before).push(q@));
            assert(lv.take(i + 1).map_values(|l: Seq<char>| "> "@ + l) =~= lv.take(
                i as int,
            ).map_values(|l: Seq<char>| "> "@ + l).push("> "@ + lv[i as int]));
        }
        i += 1;
    }
    proof {
        assert(lv.take(ls@.len() as int) =~= lv);
    }
    let nl = str_chars("\n");
    push_joined(out, &quoted, &nl);
    push_str(out, "\n\n");
    proof {
        assert(final(out)@ =~= old(out)@ + quote_markdown(inner@));
    }
}

fn is_math_class_exec(class: &Vec<char>) -> (r: bool)
    ensures
        r == is_math_class(class@),
{
    let a = str_chars("math");
    let b = str_chars("MathJax");
    let c = str_chars("katex");
    let d = str_chars("formula");
    has_substring(class, &a) || has_substring(class, &b) || has_substring(class, &c)
        || has_substring(class, &d)
}

/// Markdown of an element's children, concatenated.
#[verifier::loop_isolation(false)]
pub fn element_to_markdown(node: &HtmlNode) -> (r: Vec<char>)
    ensures
        r@ == children_markdown(children_of(node@)),
    decreases node, 1int,
{
    let mut out: Vec<char> = Vec::new();
    match node {
        HtmlNode::Element { children, .. } => {
            let ghost cv = node@->children;
            let mut i: usize = 0;
            while i < children.len()
                invariant
                    i <= children@.len(),
                    cv.len() == children@.len(),
                    out@ == children_markdown(cv.take(i as int)),
                decreases children.len() - i,
            {
                proof {
                    assert(decreases_to!(*node => *children));
                    assert(decreases_to!(*children => children@));
                    assert(decreases_to!(children@ => children@[i as int]));
                    assert(cv[i as int] == children@[i as int]@);
                }
                let ghost before = out@;
                match &children[i] {
                    HtmlNode::Text(t) => {
                        let tt = trimmed(t);
                        push_all(&mut out, &tt);
                        proof {
                            assert(children@[i as int]@ == NodeView::Text(t@));
                        }
                    },
                    HtmlNode::Element { .. } => {
                        push_element_markdown(&children[i], &mut out);
                    },
                    HtmlNode::Other => {
                        proof {
                            assert(out@ =~= before + node_markdown(cv[i as int]));
                        }
                    },
                }
                proof {
                    assert(out@ == before + node_markdown(cv[i as int]));
                }
                proof {
                    assert(cv.take(i + 1).drop_last() =~= cv.take(i as int));
                    assert(cv.take(i + 1).last() == cv[i as int]);
                }
                i += 1;
                proof {
                    assert(out@ =~= children_markdown(cv.take(i as int)));
                }
            }
            proof {
                assert(cv.take(children@.len() as int) =~= cv);
            }
        },
        _ => {
            proof {
                assert(out@ =~= children_markdown(children_of(node@)));
            }
        },
    }
    out
}

/// Appends the Markdown of one element to `out`, by its tag.
pub fn push_element_markdown(node: &HtmlNode, out: &mut Vec<char>)
    requires
        node@ is Element,
    ensures
        final(out)@ == old(out)@ + node_markdown(node@),
    decreases node, 2int,
{
    let (name, attrs) = match node {
        HtmlNode::Element { name, attrs, .. } => (name, attrs),
        _ => {
            proof {
                assert(false);
            }
            return;
        },
    };
    let ghost nv = node@;
    proof {
        assert(nv->name == name@);
        assert(nv->attrs == attrs_view(attrs@));
    }
    if chars_equal(name, "p") || chars_equal(name, "section") || chars_equal(name, "div") {
        let inner = trimmed(&element_to_markdown(node));
        push_paragraph(&inner, out);
        return;
    }
    let level = heading_level_exec(name);
    if level > 0 {
        let inner = trimmed(&element_to_markdown(node));
        push_heading(level, &inner, out);
        return;
    }
    if chars_equal(name, "img") {
        push_image(attrs, out);
    } else if chars_equal(name, "br") {
        push_str(out, "\n");
    } else if chars_equal(name, "strong") || chars_equal(name, "b") {
        let inner = trimmed(&element_to_markdown(node));
        push_wrapped("**", &inner, "**", out);
    } else if chars_equal(name, "em") || chars_equal(name, "i") {
        let inner = trimmed(&element_to_markdown(node));
        push_wrapped("*", &inner, "*", out);
    } else if chars_equal(name, "a") {
        let href = attr_or_empty_exec(attrs, "href");
        let inner = trimmed(&element_to_markdown(node));
        push_link(&href, &inner, out);
    } else if chars_equal(name, "code") {
        let inner = trimmed(&element_to_markdown(node));
        push_wrapped("`", &inner, "`", out);
    } else if chars_equal(name, "pre") {
        let mut texts: Vec<Vec<char>> = Vec::new();
        collect_text(node, &mut texts);
        proof {
            assert(seq_views(texts@) =~= text_nodes_of(nv->children));
        }
        let mut joined: Vec<char> = Vec::new();
        let nothing: Vec<char> = Vec::new();
        push_joined(&mut joined, &texts, &nothing);
        proof {
            assert(nothing@ =~= Seq::<char>::empty());
            assert(joined@ =~= join(text_nodes_of(nv->children), seq![]));
        }
        let code = trimmed(&joined);
        push_wrapped("\n```\n", &code, "\n```\n", out);
    } else if chars_equal(name, "blockquote") {
        let inner = trimmed(&element_to_markdown(node));
        push_quote(&inner, out);
    } else if chars_equal(name, "ul") {
        process_list(node, false, out);
    } else if chars_equal(name, "ol") {
        process_list(node, true, out);
    } else if chars_equal(name, "table") {
        process_table(node, out);
    } else if chars_equal(name, "span") && is_math_class_exec(&attr_or_empty_exec(attrs, "class")) {
        let class = attr_or_empty_exec(attrs, "class");
        let inner = trimmed(&element_to_markdown(node));
        if has_substring(&class, &str_chars("inline")) {
            push_wrapped("$", &inner, "$", out);
        } else {
            push_wrapped("\n$$\n", &inner, "\n$$\n\n", out);
        }
    } else if chars_equal(name, "hr") {
        push_str(out, "\n---\n\n");
    } else {
        let inner = trimmed(&element_to_markdown(node));
        push_all(out, &inner);
    }
}

/// Appends the items of a list element, and a closing line break.
#[verifier::loop_isolation(false)]
pub fn process_list(node: &HtmlNode, ordered: bool, out: &mut Vec<char>)
    requires
        node@ is Element,
    ensures
        final(out)@ == old(out)@ + list_items(children_of(node@), ordered) + "\n"@,
    decreases node, 1int,
{
    let children = match node {
        HtmlNode::Element { children, .. } => children,
        _ => {
            proof {
                assert(false);
            }
            return;
        },
    };
    let ghost cv = node@->children;
    let ghost start = out@;
    let mut idx: usize = 0;
    let mut rank: usize = 0;
    while idx < children.len()
        invariant
            idx <= children@.len(),
            cv.len() == children@.len(),
            rank <= idx,
            rank == list_item_count(cv.take(idx as int)),
            out@ == start + list_items(cv.take(idx as int), ordered),
        decreases children.len() - idx,
    {
        proof {
            assert(decreases_to!(*node => *children));
            assert(decreases_to!(*children => children@));
            assert(decreases_to!(children@ => children@[idx as int]));
            assert(cv[idx as int] == children@[idx as int]@);
        }
        let ghost before = out@;
        match &children[idx] {
            HtmlNode::Element { name, .. } => {
                if chars_equal(name, "li") {
                    let inner = trimmed(&element_to_markdown(&children[idx]));
                    if inner.len() > 0 {
                        if ordered {
                            push_decimal(out, rank + 1);
                            push_str(out, ". ");
                        } else {
                            push_str(out, "- ");
                        }
                        push_all(out, &inner);
                        push_str(out, "\n");
                    }
                }
            },
            _ => {},
        }
        proof {
            assert(out@ =~= before + list_item(cv[idx as int], rank as nat, ordered));
            assert(cv.take(idx + 1).drop_last() =~= cv.take(idx as int));
            assert(cv.take(idx + 1).last() == cv[idx as int]);
        }
        match &children[idx] {
            HtmlNode::Element { name, .. } => {
                if chars_equal(name, "li") {
                    rank += 1;
                }
            },
            _ => {},
        }
        idx += 1;
        proof {
            assert(out@ =~= start + list_items(cv.take(idx as int), ordered));
        }
    }
    proof {
        assert(cv.take(children@.len() as int) =~= cv);
    }
    push_str(out, "\n");
}

/// The cells of one table row element.
#[verifier::loop_isolation(false)]
fn row_cells_exec(row: &HtmlNode) -> (r: Vec<Vec<char>>)
    requires
        row@ is Element,
    ensures
        seq_views(r@) == row_cells(children_of(row@)),
    decreases row, 1int,
{
    let mut cells: Vec<Vec<char>> = Vec::new();
    let children = match row {
        HtmlNode::Element { children, .. } => children,
        _ => {
            proof {
                assert(false);
            }
            return cells;
        },
    };
    let ghost cv = row@->children;
    let mut i: usize = 0;
    while i < children.len()
        invariant
            i <= children@.len(),
            cv.len() == children@.len(),
            seq_views(cells@) == row_cells(cv.take(i as int)),
        decreases children.len() - i,
    {
        proof {
            assert(decreases_to!(*row => *children));
            assert(decreases_to!(*children => children@));
            assert(decreases_to!(children@ => children@[i as int]));
            assert(cv[i as int] == children@[i as int]@);
        }
        let ghost before = seq_views(cells@);
        match &children[i] {
            HtmlNode::Element { name, .. } => {
                if chars_equal(name, "th") || chars_equal(name, "td") {
                    let inner = trimmed(&element_to_markdown(&children[i]));
                    cells.push(inner);
                }
            },
            _ => {},
        }
        proof {
            assert(seq_views(cells@) =~= before + row_cell(cv[i as int]));
            assert(cv.take(i + 1).drop_last() =~= cv.take(i as int));
            assert(cv.take(i + 1).last() == cv[i as int]);
        }
        i += 1;
    }
    proof {
        assert(cv.take(children@.len() as int) =~= cv);
    }
    cells
}

/// The cells of the rows of a table, row by row.
pub open spec fn rows_view(rows: Seq<Vec<Vec<char>>>) -> Seq<Seq<Seq<char>>> {
    rows.map_values(|r: Vec<Vec<char>>| seq_views(r@))
}

/// Appends one table line for `row` filled up to `width` cells.
fn push_row_line(row: &Vec<Vec<char>>, width: usize, out: &mut Vec<char>)
    ensures
        final(out)@ == old(out)@ + row_line(pad_row(seq_views(row@), width as nat)),
{
    let mut cells: Vec<Vec<char>> = Vec::new();
    let mut i: usize = 0;
    while i < row.len()
        invariant
            i <= row@.len(),
            seq_views(cells@) == seq_views(row@).take(i as int),
        decreases row.len() - i,
    {
        let c = copy_range(&row[i], 0, row[i].len());
        proof {
            assert(c@ =~= row@[i as int]@);
        }
        let ghost before = cells@;
        cells.push(c);
        proof {
            assert(seq_views(cells@) =~= seq_views(before).push(c@));
            assert(seq_views(row@).take(i + 1) =~= seq_views(row@).take(i as int).push(row@[i as int]@));
        }
        i += 1;
        proof {
            assert(seq_views(cells@) =~= seq_views(row@).take(i as int));
        }
    }
    proof {
        assert(seq_views(row@).take(row@.len() as int) =~= seq_views(row@));
    }
    while cells.len() < width
        invariant
            row@.len() <= cells@.len(),
            row@.len() < width ==> cells@.len() <= width,
            row@.len() >= width ==> cells@.len() == row@.len(),
            seq_views(cells@) == seq_views(row@) + Seq::new(
                (cells@.len() - row@.len()) as nat,
                |k: int| Seq::<char>::empty(),
            ),
        decreases width - cells.len(),
    {
        let ghost before = cells@;
        let e: Vec<char> = Vec::new();
        cells.push(e);
        proof {
            assert(seq_views(cells@) =~= seq_views(before).push(Seq::<char>::empty()));
            assert(seq_views(cells@) =~= seq_views(row@) + Seq::new(
                (cells@.len() - row@.len()) as nat,
                |k: int| Seq::<char>::empty(),
            ));
        }
    }
    proof {
        assert(seq_views(cells@) =~= pad_row(seq_views(row@), width as nat));
    }
    push_str(out, "| ");
    let sep = str_chars(" | ");
    push_joined(out, &cells, &sep);
    push_str(out, " |");
    push_str(out, "\n");
    proof {
        assert(final(out)@ =~= old(out)@ + row_line(pad_row(seq_views(row@), width as nat)));
    }
}

/// Appends the separator line for `width` columns.
fn push_separator(width: usize, out: &mut Vec<char>)
    ensures
        final(out)@ == old(out)@ + separator_line(width as nat),
{
    let mut dashes: Vec<Vec<char>> = Vec::new();
    let mut i: usize = 0;
    while i < width
        invariant
            i <= width,
            seq_views(dashes@) == Seq::new(i as nat, |k: int| "---"@),
        decreases width - i,
    {
        let d = str_chars("---");
        let ghost before = dashes@;
        dashes.push(d);
        proof {
            assert(seq_views(dashes@) =~= seq_views(before).push("---"@));
        }
        i += 1;
        proof {
            assert(seq_views(dashes@) =~= Seq::new(i as nat, |k: int| "---"@));
        }
    }
    push_str(out, "|");
    let bar = str_chars("|");
    push_joined(out, &dashes, &bar);
    push_str(out, "|");
    push_str(out, "\n");
    proof {
        assert(final(out)@ =~= old(out)@ + separator_line(width as nat));
    }
}

/// Appends the rows of the `tr` children of a row group to `rows`, keeping
/// `max_cols` the widest row.
#[verifier::loop_isolation(false)]
fn push_group_rows(group: &HtmlNode, rows: &mut Vec<Vec<Vec<char>>>, max_cols: &mut usize)
    requires
        group@ is Element,
        *old(max_cols) == max_cells(rows_view(old(rows)@)),
    ensures
        rows_view(final(rows)@) == rows_view(old(rows)@) + group_rows(children_of(group@)),
        *final(max_cols) == max_cells(rows_view(final(rows)@)),
    decreases group, 1int,
{
    let children = match group {
        HtmlNode::Element { children, .. } => children,
        _ => {
            proof {
                assert(false);
            }
            return;
        },
    };
    let ghost cv = group@->children;
    let ghost start = rows_view(rows@);
    let mut i: usize = 0;
    while i < children.len()
        invariant
            i <= children@.len(),
            cv.len() == children@.len(),
            rows_view(rows@) == start + group_rows(cv.take(i as int)),
            *max_cols == max_cells(rows_view(rows@)),
        decreases children.len() - i,
    {
        proof {
            assert(decreases_to!(*group => *children));
            assert(decreases_to!(*children => children@));
            assert(decreases_to!(children@ => children@[i as int]));
            assert(cv[i as int] == children@[i as int]@);
        }
        let ghost before = rows_view(rows@);
        match &children[i] {
            HtmlNode::Element { name, .. } => {
                if chars_equal(name, "tr") {
                    let cells = row_cells_exec(&children[i]);
                    if cells.len() > *max_cols {
                        *max_cols = cells.len();
                    }
                    rows.push(cells);
                    proof {
                        assert(rows_view(rows@).drop_last() =~= before);
                    }
                }
            },
            _ => {},
        }
        proof {
            assert(rows_view(rows@) =~= before + group_row(cv[i as int]));
            assert(cv.take(i + 1).drop_last() =~= cv.take(i as int));
            assert(cv.take(i + 1).last() == cv[i as int]);
            assert(start + group_rows(cv.take(i + 1)) =~= start + group_rows(cv.take(i as int))
                + group_row(cv[i as int]));
        }
        i += 1;
    }
    proof {
        assert(cv.take(children@.len() as int) =~= cv);
    }
}

/// Appends a Markdown table for a table element: its rows are its `tr`
/// children and those of its `thead`, `tbody` and `tfoot` children (nothing
/// when no row has a cell).
#[verifier::loop_isolation(false)]
pub fn process_table(node: &HtmlNode, out: &mut Vec<char>)
    requires
        node@ is Element,
    ensures
        final(out)@ == old(out)@ + table_markdown(table_rows(children_of(node@))),
    decreases node, 1int,
{
    let children = match node {
        HtmlNode::Element { children, .. } => children,
        _ => {
            proof {
                assert(false);
            }
            return;
        },
    };
    let ghost cv = node@->children;
    let mut rows: Vec<Vec<Vec<char>>> = Vec::new();
    let mut max_cols: usize = 0;
    let mut i: usize = 0;
    while i < children.len()
        invariant
            i <= children@.len(),
            cv.len() == children@.len(),
            rows_view(rows@) == table_rows(cv.take(i as int)),
            max_cols == max_cells(rows_view(rows@)),
        decreases children.len() - i,
    {
        proof {
            assert(decreases_to!(*node => *children));
            assert(decreases_to!(*children => children@));
            assert(decreases_to!(children@ => children@[i as int]));
            assert(cv[i as int] == children@[i as int]@);
        }
        let ghost before = rows_view(rows@);
        match &children[i] {
            HtmlNode::Element { name, .. } => {
                if chars_equal(name, "tr") {
                    let cells = row_cells_exec(&children[i]);
                    if cells.len() > max_cols {
                        max_cols = cells.len();
                    }
                    rows.push(cells);
                    proof {
                        assert(rows_view(rows@).drop_last() =~= before);
                    }
                } else if chars_equal(name, "thead") || chars_equal(name, "tbody") || chars_equal(
                    name,
                    "tfoot",
                ) {
                    push_group_rows(&children[i], &mut rows, &mut max_cols);
                }
            },
            _ => {},
        }
        proof {
            assert(rows_view(rows@) =~= before + table_row(cv[i as int]));
            assert(cv.take(i + 1).drop_last() =~= cv.take(i as int));
            assert(cv.take(i + 1).last() == cv[i as int]);
        }
        i += 1;
    }
    proof {
        assert(cv.take(children@.len() as int) =~= cv);
    }
    let ghost rv = rows_view(rows@);
    if rows.len() == 0 || max_cols == 0 {
        proof {
            assert(final(out)@ =~= old(out)@ + table_markdown(rv));
        }
        return;
    }
    push_row_line(&rows[0], max_cols, out);
    push_separator(max_cols, out);
    let ghost after_head = out@;
    let mut k: usize = 1;
    while k < rows.len()
        invariant
            1 <= k <= rows@.len(),
            rv == rows_view(rows@),
            out@ == after_head + body_lines(rv.subrange(1, k as int), max_cols as nat),
        decreases rows.len() - k,
    {
        push_row_line(&rows[k], max_cols, out);
        proof {
            assert(rv.subrange(1, k + 1).drop_last() =~= rv.subrange(1, k as int));
            assert(rv.subrange(1, k + 1).last() == seq_views(rows@[k as int]@));
        }
        k += 1;
    }
    proof {
        assert(rv.subrange(1, rows@.len() as int) =~= rv.drop_first());
    }
    push_str(out, "\n");
    proof {
        assert(final(out)@ =~= old(out)@ + table_markdown(rv));
    }
}

} // verus!
