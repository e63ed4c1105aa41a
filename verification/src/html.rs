//! The library's model of an HTML tree, and the calls into the `scraper`
//! crate that parse HTML.
//!
//! `scraper` (html5ever) does the parsing. What the library reads of a parsed
//! tree comes back as plain values: the open/close walk of a subtree
//! (`HtmlEvent`), or what a CSS selector picks out of a document
//! (`SelectedElement`). The walk is rebuilt into an `HtmlNode` tree by
//! verified code.

use vstd::prelude::*;
use crate::text::copy_range;

verus! {

// ---------------------------------------------------------------------------
// Walk events
// ---------------------------------------------------------------------------

/// One step of a depth-first walk over a parsed tree: entering a node, or
/// leaving the node entered last.
pub enum HtmlEvent {
    /// Entering an element, with its local name and its attributes (local
    /// name, value) in the parser's order.
    Open { name: Vec<char>, attrs: Vec<(Vec<char>, Vec<char>)> },
    /// Entering a text node (it is left by the next `Close`).
    Text(Vec<char>),
    /// Entering any other node: comment, doctype, processing instruction.
    OpenOther,
    /// Leaving the node entered last.
    Close,
}

/// Mathematical value of an `HtmlEvent`.
pub enum EventView {
    Open { name: Seq<char>, attrs: Seq<(Seq<char>, Seq<char>)> },
    Text(Seq<char>),
    OpenOther,
    Close,
}

/// Attribute pairs as character sequences.
pub open spec fn attrs_view(a: Seq<(Vec<char>, Vec<char>)>) -> Seq<(Seq<char>, Seq<char>)> {
    a.map_values(|p: (Vec<char>, Vec<char>)| (p.0@, p.1@))
}

impl View for HtmlEvent {
    type V = EventView;

    open spec fn view(&self) -> EventView {
        match self {
            HtmlEvent::Open { name, attrs } => EventView::Open { name: name@, attrs: attrs_view(attrs@) },
            HtmlEvent::Text(t) => EventView::Text(t@),
            HtmlEvent::OpenOther => EventView::OpenOther,
            HtmlEvent::Close => EventView::Close,
        }
    }
}

/// Mathematical value of a sequence of events.
pub open spec fn events_view(ev: Seq<HtmlEvent>) -> Seq<EventView> {
    ev.map_values(|e: HtmlEvent| e@)
}

// ---------------------------------------------------------------------------
// Trees
// ---------------------------------------------------------------------------

/// A node of a parsed HTML tree.
pub enum HtmlNode {
    /// An element: local name, attributes (local name, value), children.
    Element { name: Vec<char>, attrs: Vec<(Vec<char>, Vec<char>)>, children: Vec<HtmlNode> },
    /// A text node.
    Text(Vec<char>),
    /// A comment, doctype or processing instruction.
    Other,
}

/// Mathematical value of an `HtmlNode`.
pub enum NodeView {
    Element { name: Seq<char>, attrs: Seq<(Seq<char>, Seq<char>)>, children: Seq<NodeView> },
    Text(Seq<char>),
    Other,
}

impl HtmlNode {
    /// Mathematical value of this node and its subtree.
    pub open spec fn view_node(&self) -> NodeView
        decreases self,
    {
        match self {
            HtmlNode::Element { name, attrs, children } => NodeView::Element {
                name: name@,
                attrs: attrs_view(attrs@),
                children: Seq::new(
                    children.len() as nat,
                    |i: int|
                        if 0 <= i < children.len() {
                            children@[i].view_node()
                        } else {
                            NodeView::Other
                        },
                ),
            },
            HtmlNode::Text(t) => NodeView::Text(t@),
            HtmlNode::Other => NodeView::Other,
        }
    }
}

impl View for HtmlNode {
    type V = NodeView;

    open spec fn view(&self) -> NodeView {
        self.view_node()
    }
}

/// Mathematical value of a sequence of nodes.
pub open spec fn nodes_view(ns: Seq<HtmlNode>) -> Seq<NodeView> {
    ns.map_values(|n: HtmlNode| n@)
}

/// The children of a node (none unless it is an element).
pub open spec fn children_of(n: NodeView) -> Seq<NodeView> {
    match n {
        NodeView::Element { children, .. } => children,
        _ => seq![],
    }
}

/// The element with no name, attributes or children.
pub open spec fn empty_element() -> NodeView {
    NodeView::Element { name: seq![], attrs: seq![], children: seq![] }
}

// ---------------------------------------------------------------------------
// Rebuilding a tree from its walk
// ---------------------------------------------------------------------------

/// The position after the `Close` at `end`, if there is one there.
pub open spec fn after_close(ev: Seq<EventView>, end: int) -> int {
    if 0 <= end < ev.len() && ev[end] is Close {
        end + 1
    } else {
        end
    }
}

/// The sibling nodes whose walks start at `pos`, up to the first unmatched
/// `Close` or the end; with the position where they stop.
pub open spec fn parse_forest(ev: Seq<EventView>, pos: int) -> (Seq<NodeView>, int)
    decreases ev.len() - pos, 1int,
{
    if pos < 0 || pos >= ev.len() || ev[pos] is Close {
        (seq![], pos)
    } else {
        let (node, next) = parse_node(ev, pos);
        if pos < next <= ev.len() {
            let (rest, end) = parse_forest(ev, next);
            (seq![node] + rest, end)
        } else {
            (seq![node], ev.len() as int)
        }
    }
}

/// The node whose walk starts at `pos`, with the position after its walk.
pub open spec fn parse_node(ev: Seq<EventView>, pos: int) -> (NodeView, int)
    decreases ev.len() - pos, 0int,
{
    if pos < 0 || pos >= ev.len() {
        (NodeView::Other, pos + 1)
    } else {
        match ev[pos] {
            EventView::Text(t) => (NodeView::Text(t), after_close(ev, pos + 1)),
            EventView::Close => (NodeView::Other, pos + 1),
            EventView::Open { name, attrs } => {
                let (kids, end) = parse_forest(ev, pos + 1);
                (NodeView::Element { name, attrs, children: kids }, after_close(ev, end))
            },
            EventView::OpenOther => {
                let (kids, end) = parse_forest(ev, pos + 1);
                (NodeView::Other, after_close(ev, end))
            },
        }
    }
}

/// The tree that a walk describes: the first node of the walk (an empty
/// element when the walk holds none).
pub open spec fn tree_of_events(ev: Seq<EventView>) -> NodeView {
    let forest = parse_forest(ev, 0).0;
    if forest.len() > 0 {
        forest[0]
    } else {
        empty_element()
    }
}

/// The depth-first walk of a tree: entering a node, walking its children,
/// leaving it.
pub open spec fn walk(n: NodeView) -> Seq<EventView>
    decreases n,
{
    match n {
        NodeView::Element { name, attrs, children } => seq![EventView::Open { name, attrs }]
            + walk_all(children) + seq![EventView::Close],
        NodeView::Text(t) => seq![EventView::Text(t), EventView::Close],
        NodeView::Other => seq![EventView::OpenOther, EventView::Close],
    }
}

/// The walks of sibling nodes, one after the other.
pub open spec fn walk_all(cs: Seq<NodeView>) -> Seq<EventView>
    decreases cs,
{
    if cs.len() == 0 {
        seq![]
    } else {
        walk(cs[0]) + walk_all(cs.drop_first())
    }
}

/// Rebuilding the node whose walk starts right after `pre` gives the node
/// back, and stops right after its walk.
pub proof fn lemma_parse_walk(n: NodeView, pre: Seq<EventView>, post: Seq<EventView>)
    ensures
        parse_node(pre + walk(n) + post, pre.len() as int) == (n, (pre.len() + walk(n).len()) as int),
    decreases n, 1int,
{
    let ev = pre + walk(n) + post;
    let pos = pre.len() as int;
    match n {
        NodeView::Element { name, attrs, children } => {
            let inner_pre = pre + seq![EventView::Open { name, attrs }];
            let inner_post = seq![EventView::Close] + post;
            assert(ev =~= inner_pre + walk_all(children) + inner_post);
            lemma_parse_walk_all(children, inner_pre, inner_post);
            assert(ev[pos] == EventView::Open { name, attrs });
            let end = pos + 1 + walk_all(children).len();
            assert(ev[end] == EventView::Close);
        },
        NodeView::Text(t) => {
            assert(ev[pos] == EventView::Text(t));
            assert(ev[pos + 1] == EventView::Close);
        },
        NodeView::Other => {
            assert(ev[pos] == EventView::OpenOther);
            assert(ev[pos + 1] == EventView::Close);
            assert(parse_forest(ev, pos + 1).1 == pos + 1);
        },
    }
}

/// Rebuilding the siblings whose walks follow `pre`, up to a `Close` or the
/// end, gives the siblings back.
pub proof fn lemma_parse_walk_all(cs: Seq<NodeView>, pre: Seq<EventView>, post: Seq<EventView>)
    requires
        post.len() == 0 || post[0] is Close,
    ensures
        parse_forest(pre + walk_all(cs) + post, pre.len() as int) == (cs, (pre.len() + walk_all(
            cs,
        ).len()) as int),
    decreases cs, 0int,
{
    let ev = pre + walk_all(cs) + post;
    let pos = pre.len() as int;
    if cs.len() == 0 {
        assert(ev =~= pre + post);
        assert(cs =~= Seq::<NodeView>::empty());
    } else {
        let first = cs[0];
        let rest = cs.drop_first();
        assert(walk_all(cs) == walk(first) + walk_all(rest));
        let post1 = walk_all(rest) + post;
        assert(ev =~= pre + walk(first) + post1);
        lemma_parse_walk(first, pre, post1);
        let pre2 = pre + walk(first);
        assert(ev =~= pre2 + walk_all(rest) + post);
        lemma_parse_walk_all(rest, pre2, post);
        assert(walk(first).len() > 0);
        assert(walk(first)[0] == ev[pos]);
        assert(!(ev[pos] is Close));
        assert(seq![first] + rest =~= cs);
    }
}

/// Rebuilding a tree from its walk gives the tree back.
pub proof fn lemma_walk_round_trip(n: NodeView)
    ensures
        tree_of_events(walk(n)) == n,
{
    let e = Seq::<EventView>::empty();
    assert(walk_all(seq![n]) =~= walk(n) + walk_all(seq![n].drop_first()));
    assert(seq![n].drop_first() =~= Seq::<NodeView>::empty());
    assert(e + walk_all(seq![n]) + e =~= walk(n));
    lemma_parse_walk_all(seq![n], e, e);
}

/// Each step of the rebuilding moves forward and stays within the walk.
pub proof fn lemma_parse_progress(ev: Seq<EventView>, pos: int)
    ensures
        0 <= pos <= ev.len() ==> pos <= parse_forest(ev, pos).1 <= ev.len(),
        0 <= pos < ev.len() ==> pos < parse_node(ev, pos).1 <= ev.len(),
    decreases ev.len() - pos,
{
    if 0 <= pos < ev.len() {
        lemma_parse_progress(ev, pos + 1);
        let (node, next) = parse_node(ev, pos);
        if pos < next <= ev.len() {
            lemma_parse_progress(ev, next);
        }
    }
}

fn is_close(e: &HtmlEvent) -> (r: bool)
    ensures
        r == (e@ is Close),
{
    match e {
        HtmlEvent::Close => true,
        _ => false,
    }
}

/// A copy of a character vector.
pub fn clone_chars(v: &Vec<char>) -> (r: Vec<char>)
    ensures
        r@ == v@,
{
    copy_range(v.as_slice(), 0, v.len())
}

/// A copy of an attribute list.
pub fn clone_attrs(a: &Vec<(Vec<char>, Vec<char>)>) -> (r: Vec<(Vec<char>, Vec<char>)>)
    ensures
        attrs_view(r@) == attrs_view(a@),
{
    let mut r: Vec<(Vec<char>, Vec<char>)> = Vec::new();
    let mut i: usize = 0;
    while i < a.len()
        invariant
            i <= a@.len(),
            attrs_view(r@) == attrs_view(a@).take(i as int),
        decreases a.len() - i,
    {
        let k = clone_chars(&a[i].0);
        let v = clone_chars(&a[i].1);
        let ghost old_r = r@;
        r.push((k, v));
        proof {
            assert(attrs_view(r@) =~= attrs_view(old_r).push((a@[i as int].0@, a@[i as int].1@)));
            assert(attrs_view(a@).take(i + 1) =~= attrs_view(a@).take(i as int).push(
                (a@[i as int].0@, a@[i as int].1@),
            ));
        }
        i += 1;
    }
    proof {
        assert(attrs_view(a@).take(a@.len() as int) =~= attrs_view(a@));
    }
    r
}

/// Rebuilds the sibling nodes whose walks start at `pos`.
#[verifier::loop_isolation(false)]
fn build_forest(ev: &Vec<HtmlEvent>, pos: usize) -> (r: (Vec<HtmlNode>, usize))
    requires
        pos <= ev@.len(),
    ensures
        nodes_view(r.0@) == parse_forest(events_view(ev@), pos as int).0,
        r.1 as int == parse_forest(events_view(ev@), pos as int).1,
    decreases ev@.len() - pos, 1int,
{
    let ghost evs = events_view(ev@);
    let mut nodes: Vec<HtmlNode> = Vec::new();
    let mut p = pos;
    while p < ev.len() && !is_close(&ev[p])
        invariant
            pos <= p <= ev@.len(),
            evs == events_view(ev@),
            parse_forest(evs, pos as int).0 == nodes_view(nodes@) + parse_forest(evs, p as int).0,
            parse_forest(evs, pos as int).1 == parse_forest(evs, p as int).1,
        decreases ev@.len() - p,
    {
        proof {
            lemma_parse_progress(evs, p as int);
        }
        let (node, next) = build_node(ev, p);
        proof {
            let (rest, end) = parse_forest(evs, next as int);
            assert(parse_forest(evs, p as int).0 == seq![node@] + rest);
        }
        let ghost old_nodes = nodes@;
        nodes.push(node);
        proof {
            assert(nodes_view(nodes@) =~= nodes_view(old_nodes).push(node@));
            assert(nodes_view(nodes@) + parse_forest(evs, next as int).0 =~= nodes_view(old_nodes)
                + (seq![node@] + parse_forest(evs, next as int).0));
        }
        p = next;
    }
    proof {
        assert(parse_forest(evs, p as int).0 =~= Seq::<NodeView>::empty());
        assert(nodes_view(nodes@) + Seq::<NodeView>::empty() =~= nodes_view(nodes@));
    }
    (nodes, p)
}

/// Rebuilds the node whose walk starts at `pos`.
fn build_node(ev: &Vec<HtmlEvent>, pos: usize) -> (r: (HtmlNode, usize))
    requires
        pos < ev@.len(),
        !(ev@[pos as int]@ is Close),
    ensures
        r.0@ == parse_node(events_view(ev@), pos as int).0,
        r.1 as int == parse_node(events_view(ev@), pos as int).1,
    decreases ev@.len() - pos, 0int,
{
    let ghost evs = events_view(ev@);
    let n = ev.len();
    proof {
        lemma_parse_progress(evs, pos + 1);
    }
    match &ev[pos] {
        HtmlEvent::Text(t) => {
            let next = if pos + 1 < ev.len() && is_close(&ev[pos + 1]) { pos + 2 } else { pos + 1 };
            (HtmlNode::Text(clone_chars(t)), next)
        },
        HtmlEvent::Open { name, attrs } => {
            let (kids, end) = build_forest(ev, pos + 1);
            let next = if end < ev.len() && is_close(&ev[end]) { end + 1 } else { end };
            let node = HtmlNode::Element { name: clone_chars(name), attrs: clone_attrs(attrs), children: kids };
            proof {
                assert(node@ == parse_node(evs, pos as int).0) by {
                    let v = node@;
                    assert(v->children =~= nodes_view(kids@));
                }
            }
            (node, next)
        },
        HtmlEvent::OpenOther => {
            let (_kids, end) = build_forest(ev, pos + 1);
            let next = if end < ev.len() && is_close(&ev[end]) { end + 1 } else { end };
            (HtmlNode::Other, next)
        },
        HtmlEvent::Close => (HtmlNode::Other, pos + 1),
    }
}

/// Rebuilds the tree that a walk describes (see `tree_of_events`).
pub fn build_tree(events: &Vec<HtmlEvent>) -> (r: HtmlNode)
    ensures
        r@ == tree_of_events(events_view(events@)),
{
    let (mut forest, _end) = build_forest(events, 0);
    if forest.len() > 0 {
        let ghost fv = nodes_view(forest@);
        let first = forest.remove(0);
        proof {
            assert(first@ == fv[0]);
        }
        first
    } else {
        let node = HtmlNode::Element { name: Vec::new(), attrs: Vec::new(), children: Vec::new() };
        proof {
            let v = node@;
            assert(v->name =~= Seq::<char>::empty());
            assert(v->attrs =~= Seq::<(Seq<char>, Seq<char>)>::empty());
            assert(v->children =~= Seq::<NodeView>::empty());
            assert(parse_forest(events_view(events@), 0).0.len() == 0);
        }
        node
    }
}

// ---------------------------------------------------------------------------
// Calls into `scraper`
// ---------------------------------------------------------------------------

/// What walking the fragment parsed from `html` gives: the walk of the root
/// `<html>` element that `scraper::Html::parse_fragment(html)` builds.
pub uninterp spec fn fragment_traversal(html: Seq<char>) -> Seq<EventView>;

/// Parses `html` with `scraper::Html::parse_fragment` (html5ever, `<body>`
/// context) and walks `Html::root_element` with ego-tree's `traverse`, one
/// event per edge. The result is named by `fragment_traversal`; the parser
/// always creates the root `<html>` element that `root_element` looks for.
#[verifier::external_body]
pub(crate) fn fragment_events(html: &str) -> (r: Vec<HtmlEvent>)
    ensures
        events_view(r@) == fragment_traversal(html@),
{
    let fragment = scraper::Html::parse_fragment(html);
    fragment.root_element().traverse().map(|edge| match edge {
        ego_tree::iter::Edge::Open(node) => match node.value() {
            scraper::Node::Element(el) => HtmlEvent::Open {
                name: el.name().chars().collect(),
                attrs: el.attrs().map(|(k, v)| (k.chars().collect(), v.chars().collect())).collect(),
            },
            scraper::Node::Text(t) => HtmlEvent::Text(t.chars().collect()),
            _ => HtmlEvent::OpenOther,
        },
        ego_tree::iter::Edge::Close(_) => HtmlEvent::Close,
    }).collect()
}

/// What a CSS selector picks out of a parsed document, for one element.
pub struct SelectedElement {
    /// The element's text: its descendant text nodes, concatenated.
    pub text: Vec<char>,
    /// The element's attributes (local name, value) in the parser's order.
    pub attrs: Vec<(Vec<char>, Vec<char>)>,
    /// The element's inner HTML, as html5ever serialises it.
    pub inner_html: String,
}

/// Mathematical value of a `SelectedElement`.
pub struct SelectedView {
    pub text: Seq<char>,
    pub attrs: Seq<(Seq<char>, Seq<char>)>,
    pub inner_html: Seq<char>,
}

impl View for SelectedElement {
    type V = SelectedView;

    open spec fn view(&self) -> SelectedView {
        SelectedView { text: self.text@, attrs: attrs_view(self.attrs@), inner_html: self.inner_html@ }
    }
}

/// Mathematical value of a selection result.
pub open spec fn selection_view(r: Option<Vec<SelectedElement>>) -> Option<Seq<SelectedView>> {
    match r {
        Some(v) => Some(v@.map_values(|e: SelectedElement| e@)),
        None => None,
    }
}

/// What selecting with `selector` in the document parsed from `html` gives:
/// `None` when `selector` is not valid CSS, else the matching elements in
/// the order `scraper::Html::select` yields them.
pub uninterp spec fn document_selection(html: Seq<char>, selector: Seq<char>) -> Option<
    Seq<SelectedView>,
>;

/// Parses `html` with `scraper::Html::parse_document`, `selector` with
/// `scraper::Selector::parse`, and lists what `Html::select` yields, each
/// element taken as its text (`ElementRef::text`), attributes
/// (`Element::attrs`) and inner HTML (`ElementRef::inner_html`). The result
/// is named by `document_selection`.
#[verifier::external_body]
pub(crate) fn select_in_document(html: &str, selector: &str) -> (r: Option<Vec<SelectedElement>>)
    ensures
        selection_view(r) == document_selection(html@, selector@),
{
    let document = scraper::Html::parse_document(html);
    let selector = scraper::Selector::parse(selector).ok()?;
    Some(document.select(&selector).map(|el| SelectedElement {
        text: el.text().flat_map(str::chars).collect(),
        attrs: el.value().attrs().map(|(k, v)| (k.chars().collect(), v.chars().collect())).collect(),
        inner_html: el.inner_html(),
    }).collect())
}

} // verus!
